//! The table on which a user picks what a persona uses, and what their picks
//! do to its manifest and to the machine.

use vstd::prelude::*;

use crate::config::app_config::{AppConfig, Switches};
use crate::config::builtin_plugins::{
    self, builtin_plugins, descriptor, holds_id, machine_feature, machine_features,
    BuiltinPluginDescriptor, MachineFeature, MachineSwitch, PLUGIN_IDS, TOGGLE_PLUGINS,
};
use crate::config::persona_manifest::{self, ManifestView, PersonaManifest, Subsystems};
use crate::i18n::{self, text_for, Locale};
use crate::json;
use crate::text::{self, is_listed, same_text, trimmed};

verus! {

/// Who the table is for.
#[derive(Clone, Copy, Debug, PartialEq, Eq, Structural)]
pub enum CatalogScope {
    /// A new user, who sees what they may do without.
    Onboarding,
    /// A user in the settings, who sees everything.
    Settings,
}

impl CatalogScope {
    /// Whether everything is shown.
    pub fn everything(self) -> (r: bool)
        ensures
            r == (self == CatalogScope::Settings),
    {
        self == CatalogScope::Settings
    }
}

/// One of the [`Subsystems`].
#[derive(Clone, Copy, Debug, PartialEq, Eq, Structural)]
pub enum SubsystemFlag {
    Voice,
    PersonaReminder,
    Emotion,
    Memory,
}

/// A subsystem on the table.
#[derive(Clone, Copy, Debug)]
pub struct SubsystemDescriptor {
    pub id: &'static str,
    pub name_zh: &'static str,
    pub hint_zh: &'static str,
    pub name_en: &'static str,
    pub hint_en: &'static str,
    /// Whether a new user is asked about it.
    pub in_onboarding: bool,
    /// Whether it has settings.
    pub settings: bool,
}

/// The subsystems, in the order in which they are listed.
pub const SUBSYSTEMS: [SubsystemFlag; 4] = [
    SubsystemFlag::Voice,
    SubsystemFlag::PersonaReminder,
    SubsystemFlag::Emotion,
    SubsystemFlag::Memory,
];

/// A subsystem on the table.
pub open spec fn described(flag: SubsystemFlag) -> SubsystemDescriptor {
    match flag {
        SubsystemFlag::Voice => SubsystemDescriptor {
            id: "voice",
            name_zh: "语音",
            hint_zh: "唤醒对话、听写、朗读",
            name_en: "Voice",
            hint_en: "Wake word, dictation, speech",
            in_onboarding: true,
            settings: true,
        },
        SubsystemFlag::PersonaReminder => SubsystemDescriptor {
            id: "persona_reminder",
            name_zh: "人格提醒",
            hint_zh: "隔几轮提醒模型保持人设",
            name_en: "Persona reminder",
            hint_en: "Remind the model to stay in character",
            in_onboarding: true,
            settings: false,
        },
        SubsystemFlag::Emotion => SubsystemDescriptor {
            id: "emotion",
            name_zh: "情绪与好感度",
            hint_zh: "通讯平台里的情绪状态与好感度",
            name_en: "Mood and affection",
            hint_en: "Mood and affection on messaging platforms",
            in_onboarding: true,
            settings: true,
        },
        SubsystemFlag::Memory => SubsystemDescriptor {
            id: "memory",
            name_zh: "长期记忆",
            hint_zh: "记忆、联想、日记",
            name_en: "Memory",
            hint_en: "Long-term memory",
            in_onboarding: false,
            settings: true,
        },
    }
}

/// Whether a subsystem is used.
pub open spec fn flag_in(flag: SubsystemFlag, subsystems: Subsystems) -> bool {
    match flag {
        SubsystemFlag::Voice => subsystems.voice,
        SubsystemFlag::PersonaReminder => subsystems.persona_reminder,
        SubsystemFlag::Emotion => subsystems.emotion,
        SubsystemFlag::Memory => subsystems.memory,
    }
}

/// The subsystems with one of them set.
pub open spec fn flagged(flag: SubsystemFlag, subsystems: Subsystems, on: bool) -> Subsystems {
    match flag {
        SubsystemFlag::Voice => Subsystems { voice: on, ..subsystems },
        SubsystemFlag::PersonaReminder => Subsystems { persona_reminder: on, ..subsystems },
        SubsystemFlag::Emotion => Subsystems { emotion: on, ..subsystems },
        SubsystemFlag::Memory => Subsystems { memory: on, ..subsystems },
    }
}

/// Whether there is such a subsystem on the machine. One that there is not is
/// not listed.
pub open spec fn is_available(flag: SubsystemFlag, sources: FeatureSources) -> bool {
    match flag {
        SubsystemFlag::Voice => sources.voice_available,
        SubsystemFlag::PersonaReminder => sources.persona_reminder_available,
        SubsystemFlag::Emotion => sources.emotion_available,
        SubsystemFlag::Memory => true,
    }
}

impl SubsystemFlag {
    /// The subsystem on the table.
    pub fn descriptor(self) -> (descriptor: SubsystemDescriptor)
        ensures
            descriptor == described(self),
    {
        match self {
            SubsystemFlag::Voice => SubsystemDescriptor {
                id: "voice",
                name_zh: "语音",
                hint_zh: "唤醒对话、听写、朗读",
                name_en: "Voice",
                hint_en: "Wake word, dictation, speech",
                in_onboarding: true,
                settings: true,
            },
            SubsystemFlag::PersonaReminder => SubsystemDescriptor {
                id: "persona_reminder",
                name_zh: "人格提醒",
                hint_zh: "隔几轮提醒模型保持人设",
                name_en: "Persona reminder",
                hint_en: "Remind the model to stay in character",
                in_onboarding: true,
                settings: false,
            },
            SubsystemFlag::Emotion => SubsystemDescriptor {
                id: "emotion",
                name_zh: "情绪与好感度",
                hint_zh: "通讯平台里的情绪状态与好感度",
                name_en: "Mood and affection",
                hint_en: "Mood and affection on messaging platforms",
                in_onboarding: true,
                settings: true,
            },
            SubsystemFlag::Memory => SubsystemDescriptor {
                id: "memory",
                name_zh: "长期记忆",
                hint_zh: "记忆、联想、日记",
                name_en: "Memory",
                hint_en: "Long-term memory",
                in_onboarding: false,
                settings: true,
            },
        }
    }

    /// Whether the subsystem is used.
    pub fn get(self, subsystems: &Subsystems) -> (on: bool)
        ensures
            on == flag_in(self, *subsystems),
    {
        match self {
            SubsystemFlag::Voice => subsystems.voice,
            SubsystemFlag::PersonaReminder => subsystems.persona_reminder,
            SubsystemFlag::Emotion => subsystems.emotion,
            SubsystemFlag::Memory => subsystems.memory,
        }
    }

    /// Sets whether the subsystem is used.
    pub fn set(self, subsystems: &mut Subsystems, on: bool)
        ensures
            *final(subsystems) == flagged(self, *old(subsystems), on),
    {
        match self {
            SubsystemFlag::Voice => {
                subsystems.voice = on;
            },
            SubsystemFlag::PersonaReminder => {
                subsystems.persona_reminder = on;
            },
            SubsystemFlag::Emotion => {
                subsystems.emotion = on;
            },
            SubsystemFlag::Memory => {
                subsystems.memory = on;
            },
        }
    }

    /// Whether there is such a subsystem on the machine.
    pub fn available(self, sources: &FeatureSources) -> (r: bool)
        ensures
            r == is_available(self, *sources),
    {
        match self {
            SubsystemFlag::Voice => sources.voice_available,
            SubsystemFlag::PersonaReminder => sources.persona_reminder_available,
            SubsystemFlag::Emotion => sources.emotion_available,
            SubsystemFlag::Memory => true,
        }
    }
}

/// Whether `found` is the subsystem with an id, if there is one.
pub open spec fn is_subsystem_with(id: Seq<char>, found: Option<SubsystemFlag>) -> bool {
    match found {
        Some(flag) => described(flag).id@ == id,
        None => forall|flag: SubsystemFlag| (#[trigger] described(flag)).id@ != id,
    }
}

/// The subsystem with an id.
pub fn subsystem(id: &str) -> (found: Option<SubsystemFlag>)
    ensures
        is_subsystem_with(id@, found),
{
    let all: [SubsystemFlag; 4] = SUBSYSTEMS;
    let mut i: usize = 0;
    while i < 4
        invariant
            i <= 4,
            all == SUBSYSTEMS,
            forall|k: int| 0 <= k < i ==> described(#[trigger] all@[k]).id@ != id@,
        decreases 4 - i,
    {
        if same_text(all[i].descriptor().id, id) {
            return Some(all[i]);
        }
        i += 1;
    }
    proof {
        assert forall|flag: SubsystemFlag| (#[trigger] described(flag)).id@ != id@ by {
            match flag {
                SubsystemFlag::Voice => assert(all@[0] == flag),
                SubsystemFlag::PersonaReminder => assert(all@[1] == flag),
                SubsystemFlag::Emotion => assert(all@[2] == flag),
                SubsystemFlag::Memory => assert(all@[3] == flag),
            }
        }
    }
    None
}

/// The plugins that a new user is not asked about.
pub fn always_on_plugins() -> (ids: Vec<&'static str>)
    ensures
        ids@ == PLUGIN_IDS@.filter(
            |id: &'static str| !builtin_plugins::is_id(TOGGLE_PLUGINS@, id@),
        ),
{
    let all: [&'static str; 11] = PLUGIN_IDS;
    let ghost keep = |id: &'static str| !builtin_plugins::is_id(TOGGLE_PLUGINS@, id@);
    let mut ids: Vec<&'static str> = Vec::new();
    let mut i: usize = 0;
    proof {
        reveal(Seq::filter);
        assert(all@.take(0).filter(keep) =~= Seq::empty());
    }
    while i < 11
        invariant
            i <= 11,
            all@.len() == 11,
            keep == (|id: &'static str| !builtin_plugins::is_id(TOGGLE_PLUGINS@, id@)),
            ids@ == all@.take(i as int).filter(keep),
        decreases 11 - i,
    {
        proof {
            crate::table::lemma_filter_step(all@, keep, i as int);
        }
        if !holds_id(&TOGGLE_PLUGINS, all[i]) {
            ids.push(all[i]);
        }
        i += 1;
    }
    assert(all@.take(11) =~= all@);
    ids
}

/// What a row of the table is about.
#[derive(Clone, Copy, Debug, PartialEq, Eq, Structural)]
pub enum FeatureKind {
    Subsystem,
    Plugin,
    Script,
    Skill,
    /// A server of the configuration.
    Mcp,
    /// Something that is on or off for the whole machine.
    Machine,
}

/// A row of the table.
#[derive(Clone, Debug, PartialEq, Eq)]
pub struct FeatureItem {
    pub kind: FeatureKind,
    pub id: String,
    pub name: String,
    pub hint: String,
    /// Whether it is ticked.
    pub on: bool,
    /// Whether it came with the program. Such a script or skill is off for a
    /// persona of the user's own until it is named.
    pub builtin: bool,
    /// Whether it has settings.
    pub settings: bool,
    /// Whether it is on for the machine, where that is a question.
    pub machine_on: Option<bool>,
}

/// What a [`FeatureItem`] holds.
#[verifier::ext_equal]
pub struct ItemView {
    pub kind: FeatureKind,
    pub id: Seq<char>,
    pub name: Seq<char>,
    pub hint: Seq<char>,
    pub on: bool,
    pub builtin: bool,
    pub settings: bool,
    pub machine_on: Option<bool>,
}

impl View for FeatureItem {
    type V = ItemView;

    open spec fn view(&self) -> ItemView {
        ItemView {
            kind: self.kind,
            id: self.id@,
            name: self.name@,
            hint: self.hint@,
            on: self.on,
            builtin: self.builtin,
            settings: self.settings,
            machine_on: self.machine_on,
        }
    }
}

/// What some rows hold.
pub open spec fn rows_of(items: Seq<FeatureItem>) -> Seq<ItemView> {
    items.map_values(|item: FeatureItem| item@)
}

/// What there is on the machine besides what comes with the program.
#[derive(Clone, Debug, Default)]
pub struct FeatureSources {
    pub voice_available: bool,
    pub persona_reminder_available: bool,
    pub emotion_available: bool,
    /// Scripts: id, name, hint, and whether it came with the program.
    pub scripts: Vec<(String, String, String, bool)>,
    /// Skills: id, name, hint, and whether it came with the program.
    pub skills: Vec<(String, String, String, bool)>,
    /// Servers: id, name, and hint. None where servers are off for the machine.
    pub mcp_servers: Vec<(String, String, String)>,
}

/// Whether a list names an id.
pub open spec fn names(list: Option<Seq<Seq<char>>>, id: Seq<char>) -> bool {
    match list {
        Some(list) => list.contains(id),
        None => false,
    }
}

/// Whether something is ticked. What came with the program is so for a persona
/// of the user's own where it is named; anything else also where there is no
/// list.
pub open spec fn ticked(
    list: Option<Seq<Seq<char>>>,
    id: Seq<char>,
    builtin: bool,
    default_persona: bool,
) -> bool {
    if builtin && !default_persona {
        names(list, id)
    } else {
        list is None || names(list, id)
    }
}

/// Whether something is ticked.
fn extension_on(
    list: &Option<Vec<String>>,
    id: &str,
    builtin: bool,
    default_persona: bool,
) -> (r: bool)
    ensures
        r == ticked(json::opt_texts(*list), id@, builtin, default_persona),
{
    match list {
        None => !(builtin && !default_persona),
        Some(list) => {
            proof {
                json::lemma_listed(list@, id@);
            }
            is_listed(list, id)
        },
    }
}

/// The row of something that is on or off for the machine.
pub open spec fn machine_row(
    feature: MachineFeature,
    switches: Option<Switches>,
    locale: Locale,
) -> ItemView {
    let on = match switches {
        Some(switches) => builtin_plugins::is_on(feature.switch, switches),
        None => false,
    };
    ItemView {
        kind: FeatureKind::Machine,
        id: feature.id@,
        name: i18n::wording(locale, feature.name_en, feature.name_zh)@,
        hint: i18n::wording(locale, feature.hint_en, feature.hint_zh)@,
        on,
        builtin: false,
        settings: feature.settings,
        machine_on: Some(on),
    }
}

/// The row of a subsystem.
pub open spec fn subsystem_row(
    flag: SubsystemFlag,
    manifest: ManifestView,
    locale: Locale,
) -> ItemView {
    ItemView {
        kind: FeatureKind::Subsystem,
        id: described(flag).id@,
        name: i18n::wording(locale, described(flag).name_en, described(flag).name_zh)@,
        hint: i18n::wording(locale, described(flag).hint_en, described(flag).hint_zh)@,
        on: flag_in(flag, manifest.subsystems),
        builtin: false,
        settings: described(flag).settings,
        machine_on: None,
    }
}

/// Whether a plugin can work: nothing has to be on for it, or it is on.
pub open spec fn is_installed(plugin: BuiltinPluginDescriptor, switches: Switches) -> bool {
    match plugin.switch {
        Some(switch) => builtin_plugins::is_on(switch, switches),
        None => true,
    }
}

/// The row of a plugin.
pub open spec fn plugin_row(
    plugin: BuiltinPluginDescriptor,
    manifest: ManifestView,
    switches: Option<Switches>,
    locale: Locale,
) -> ItemView {
    ItemView {
        kind: FeatureKind::Plugin,
        id: plugin.id@,
        name: i18n::wording(locale, plugin.name_en, plugin.name_zh)@,
        hint: i18n::wording(locale, plugin.hint_en, plugin.hint_zh)@,
        on: persona_manifest::uses(manifest, plugin.id@),
        builtin: false,
        settings: plugin.settings,
        machine_on: match switches {
            Some(switches) => Some(is_installed(plugin, switches)),
            None => None,
        },
    }
}

/// A name, or the id where the name is blank.
pub open spec fn name_or_id(name: Seq<char>, id: Seq<char>) -> Seq<char> {
    if text::trim(name).len() == 0 {
        id
    } else {
        name
    }
}

/// The row of a script.
pub open spec fn script_row(
    script: (String, String, String, bool),
    manifest: ManifestView,
    default_persona: bool,
) -> ItemView {
    ItemView {
        kind: FeatureKind::Script,
        id: script.0@,
        name: name_or_id(script.1@, script.0@),
        hint: script.2@,
        on: ticked(manifest.scripts, script.0@, script.3, default_persona),
        builtin: script.3,
        settings: false,
        machine_on: None,
    }
}

/// The row of a skill.
pub open spec fn skill_row(
    skill: (String, String, String, bool),
    manifest: ManifestView,
    default_persona: bool,
) -> ItemView {
    ItemView {
        kind: FeatureKind::Skill,
        id: skill.0@,
        name: skill.1@,
        hint: skill.2@,
        on: ticked(manifest.skills, skill.0@, skill.3, default_persona),
        builtin: skill.3,
        settings: false,
        machine_on: None,
    }
}

/// The row of a server.
pub open spec fn mcp_row(
    server: (String, String, String),
    manifest: ManifestView,
    default_persona: bool,
) -> ItemView {
    ItemView {
        kind: FeatureKind::Mcp,
        id: server.0@,
        name: name_or_id(server.1@, server.0@),
        hint: server.2@,
        on: ticked(manifest.mcp, server.0@, false, default_persona),
        builtin: false,
        settings: false,
        machine_on: None,
    }
}

/// Whether a subsystem is listed.
pub open spec fn lists_subsystem(
    flag: SubsystemFlag,
    sources: FeatureSources,
    scope: CatalogScope,
) -> bool {
    (scope == CatalogScope::Settings || described(flag).in_onboarding) && is_available(flag, sources)
}

/// Whether a plugin is listed.
pub open spec fn lists_plugin(plugin: BuiltinPluginDescriptor, scope: CatalogScope) -> bool {
    scope == CatalogScope::Settings || plugin.toggleable
}

/// What is listed as on or off for the machine.
pub open spec fn machine_rows(
    scope: CatalogScope,
    switches: Option<Switches>,
    locale: Locale,
) -> Seq<ItemView> {
    if scope == CatalogScope::Settings {
        builtin_plugins::features().map_values(
            |feature: MachineFeature| machine_row(feature, switches, locale),
        )
    } else {
        Seq::empty()
    }
}

/// The subsystems that are listed.
pub open spec fn subsystem_rows(
    manifest: ManifestView,
    sources: FeatureSources,
    scope: CatalogScope,
    locale: Locale,
) -> Seq<ItemView> {
    SUBSYSTEMS@.filter(|flag: SubsystemFlag| lists_subsystem(flag, sources, scope)).map_values(
        |flag: SubsystemFlag| subsystem_row(flag, manifest, locale),
    )
}

/// The plugins that are listed.
pub open spec fn plugin_rows(
    manifest: ManifestView,
    scope: CatalogScope,
    switches: Option<Switches>,
    locale: Locale,
) -> Seq<ItemView> {
    builtin_plugins::plugins().filter(
        |plugin: BuiltinPluginDescriptor| lists_plugin(plugin, scope),
    ).map_values(
        |plugin: BuiltinPluginDescriptor| plugin_row(plugin, manifest, switches, locale),
    )
}

/// The scripts that are listed.
pub open spec fn script_rows(
    manifest: ManifestView,
    scripts: Seq<(String, String, String, bool)>,
    default_persona: bool,
) -> Seq<ItemView> {
    scripts.map_values(
        |script: (String, String, String, bool)| script_row(script, manifest, default_persona),
    )
}

/// The skills that are listed.
pub open spec fn skill_rows(
    manifest: ManifestView,
    skills: Seq<(String, String, String, bool)>,
    default_persona: bool,
) -> Seq<ItemView> {
    skills.map_values(
        |skill: (String, String, String, bool)| skill_row(skill, manifest, default_persona),
    )
}

/// The servers that are listed.
pub open spec fn mcp_rows(
    manifest: ManifestView,
    servers: Seq<(String, String, String)>,
    default_persona: bool,
) -> Seq<ItemView> {
    servers.map_values(
        |server: (String, String, String)| mcp_row(server, manifest, default_persona),
    )
}

/// The whole table.
pub open spec fn table(
    manifest: ManifestView,
    sources: FeatureSources,
    default_persona: bool,
    scope: CatalogScope,
    switches: Option<Switches>,
    locale: Locale,
) -> Seq<ItemView> {
    machine_rows(scope, switches, locale) + subsystem_rows(manifest, sources, scope, locale)
        + plugin_rows(manifest, scope, switches, locale) + script_rows(
        manifest,
        sources.scripts@,
        default_persona,
    ) + skill_rows(manifest, sources.skills@, default_persona) + mcp_rows(
        manifest,
        sources.mcp_servers@,
        default_persona,
    )
}

/// The switches of a configuration, where there is one.
pub open spec fn switches_of(config: Option<&AppConfig>) -> Option<Switches> {
    match config {
        Some(config) => Some(config.switches),
        None => None,
    }
}

/// A name, or the id where the name is blank.
fn name_or(name: &String, id: &String) -> (out: String)
    ensures
        out@ == name_or_id(name@, id@),
{
    if trimmed(name.as_str()).as_str().unicode_len() == 0 {
        id.clone()
    } else {
        name.clone()
    }
}

/// Adds what is listed as on or off for the machine.
fn push_machine_rows(
    items: &mut Vec<FeatureItem>,
    scope: CatalogScope,
    config: Option<&AppConfig>,
    locale: Locale,
)
    ensures
        rows_of(final(items)@) == rows_of(old(items)@) + machine_rows(
            scope,
            switches_of(config),
            locale,
        ),
{
    let ghost before = rows_of(items@);
    let ghost rows = machine_rows(scope, switches_of(config), locale);
    if !scope.everything() {
        assert(rows_of(items@) =~= before + rows);
        return ;
    }
    let list = machine_features();
    let mut i: usize = 0;
    while i < list.len()
        invariant
            i <= list@.len(),
            list@ == builtin_plugins::features(),
            rows == list@.map_values(
                |feature: MachineFeature| machine_row(feature, switches_of(config), locale),
            ),
            rows_of(items@) =~= before + rows.take(i as int),
        decreases list@.len() - i,
    {
        let feature = list[i];
        let on = match config {
            Some(config) => feature.switch.get(config),
            None => false,
        };
        let ghost so_far = items@;
        items.push(
            FeatureItem {
                kind: FeatureKind::Machine,
                id: feature.id.to_owned(),
                name: text_for(locale, feature.name_en, feature.name_zh).to_owned(),
                hint: text_for(locale, feature.hint_en, feature.hint_zh).to_owned(),
                on,
                builtin: false,
                settings: feature.settings,
                machine_on: Some(on),
            },
        );
        proof {
            assert(items@.last()@ == rows[i as int]);
            lemma_row_added(so_far, items@, before, rows, i as int);
        }
        i += 1;
    }
    assert(rows.take(rows.len() as int) =~= rows);
}

/// Adding the next row to those that are there.
proof fn lemma_row_added(
    so_far: Seq<FeatureItem>,
    items: Seq<FeatureItem>,
    before: Seq<ItemView>,
    rows: Seq<ItemView>,
    n: int,
)
    requires
        0 <= n < rows.len(),
        rows_of(so_far) == before + rows.take(n),
        items.len() > 0,
        items == so_far.push(items.last()),
        items.last()@ == rows[n],
    ensures
        rows_of(items) == before + rows.take(n + 1),
{
    assert(rows_of(items) =~= rows_of(so_far).push(items.last()@));
    assert(rows.take(n + 1) =~= rows.take(n).push(rows[n]));
}

/// Adds the subsystems that are listed.
fn push_subsystem_rows(
    items: &mut Vec<FeatureItem>,
    manifest: &PersonaManifest,
    sources: &FeatureSources,
    scope: CatalogScope,
    locale: Locale,
)
    ensures
        rows_of(final(items)@) == rows_of(old(items)@) + subsystem_rows(
            manifest@,
            *sources,
            scope,
            locale,
        ),
{
    let ghost before = rows_of(items@);
    let all: [SubsystemFlag; 4] = SUBSYSTEMS;
    let ghost keep = |flag: SubsystemFlag| lists_subsystem(flag, *sources, scope);
    let ghost row = |flag: SubsystemFlag| subsystem_row(flag, manifest@, locale);
    let mut i: usize = 0;
    proof {
        reveal(Seq::filter);
        assert(rows_of(items@) =~= before + all@.take(0).filter(keep).map_values(row));
    }
    while i < 4
        invariant
            i <= 4,
            all@.len() == 4,
            keep == (|flag: SubsystemFlag| lists_subsystem(flag, *sources, scope)),
            row == (|flag: SubsystemFlag| subsystem_row(flag, manifest@, locale)),
            rows_of(items@) =~= before + all@.take(i as int).filter(keep).map_values(row),
        decreases 4 - i,
    {
        let flag = all[i];
        proof {
            crate::table::lemma_filter_step(all@, keep, i as int);
        }
        let descriptor = flag.descriptor();
        if (scope.everything() || descriptor.in_onboarding) && flag.available(sources) {
            let ghost so_far = items@;
            let ghost kept = all@.take(i as int).filter(keep);
            items.push(
                FeatureItem {
                    kind: FeatureKind::Subsystem,
                    id: descriptor.id.to_owned(),
                    name: text_for(locale, descriptor.name_en, descriptor.name_zh).to_owned(),
                    hint: text_for(locale, descriptor.hint_en, descriptor.hint_zh).to_owned(),
                    on: flag.get(&manifest.subsystems),
                    builtin: false,
                    settings: descriptor.settings,
                    machine_on: None,
                },
            );
            proof {
                assert(items@.last()@ == row(flag));
                assert(rows_of(items@) =~= rows_of(so_far).push(items@.last()@));
                assert(kept.push(flag).map_values(row) =~= kept.map_values(row).push(row(flag)));
            }
        }
        i += 1;
    }
    assert(all@.take(4) =~= all@);
}

/// Adds the plugins that are listed.
fn push_plugin_rows(
    items: &mut Vec<FeatureItem>,
    manifest: &PersonaManifest,
    scope: CatalogScope,
    config: Option<&AppConfig>,
    locale: Locale,
)
    ensures
        rows_of(final(items)@) == rows_of(old(items)@) + plugin_rows(
            manifest@,
            scope,
            switches_of(config),
            locale,
        ),
{
    let ghost before = rows_of(items@);
    let all = builtin_plugins();
    let ghost keep = |plugin: BuiltinPluginDescriptor| lists_plugin(plugin, scope);
    let ghost row = |plugin: BuiltinPluginDescriptor|
        plugin_row(plugin, manifest@, switches_of(config), locale);
    let mut i: usize = 0;
    proof {
        reveal(Seq::filter);
        assert(rows_of(items@) =~= before + all@.take(0).filter(keep).map_values(row));
    }
    while i < all.len()
        invariant
            i <= all@.len(),
            keep == (|plugin: BuiltinPluginDescriptor| lists_plugin(plugin, scope)),
            row == (|plugin: BuiltinPluginDescriptor|
                plugin_row(plugin, manifest@, switches_of(config), locale)),
            rows_of(items@) =~= before + all@.take(i as int).filter(keep).map_values(row),
        decreases all@.len() - i,
    {
        let plugin = all[i];
        proof {
            crate::table::lemma_filter_step(all@, keep, i as int);
        }
        if scope.everything() || plugin.toggleable {
            let ghost so_far = items@;
            let ghost kept = all@.take(i as int).filter(keep);
            let machine_on = match config {
                Some(config) => match plugin.switch {
                    Some(switch) => Some(switch.get(config)),
                    None => Some(true),
                },
                None => None,
            };
            items.push(
                FeatureItem {
                    kind: FeatureKind::Plugin,
                    id: plugin.id.to_owned(),
                    name: text_for(locale, plugin.name_en, plugin.name_zh).to_owned(),
                    hint: text_for(locale, plugin.hint_en, plugin.hint_zh).to_owned(),
                    on: manifest.plugin_enabled(plugin.id),
                    builtin: false,
                    settings: plugin.settings,
                    machine_on,
                },
            );
            proof {
                assert(items@.last()@ == row(plugin));
                assert(rows_of(items@) =~= rows_of(so_far).push(items@.last()@));
                assert(kept.push(plugin).map_values(row) =~= kept.map_values(row).push(row(plugin)));
            }
        }
        i += 1;
    }
    assert(all@.take(all@.len() as int) =~= all@);
}

/// Adds the scripts.
fn push_script_rows(
    items: &mut Vec<FeatureItem>,
    manifest: &PersonaManifest,
    scripts: &Vec<(String, String, String, bool)>,
    default_persona: bool,
)
    ensures
        rows_of(final(items)@) == rows_of(old(items)@) + script_rows(
            manifest@,
            scripts@,
            default_persona,
        ),
{
    let ghost before = rows_of(items@);
    let ghost rows = script_rows(manifest@, scripts@, default_persona);
    let mut i: usize = 0;
    while i < scripts.len()
        invariant
            i <= scripts@.len(),
            rows == script_rows(manifest@, scripts@, default_persona),
            rows_of(items@) =~= before + rows.take(i as int),
        decreases scripts@.len() - i,
    {
        let script = &scripts[i];
        let ghost so_far = items@;
        items.push(
            FeatureItem {
                kind: FeatureKind::Script,
                id: script.0.clone(),
                name: name_or(&script.1, &script.0),
                hint: script.2.clone(),
                on: extension_on(
                    &manifest.plugins.scripts,
                    script.0.as_str(),
                    script.3,
                    default_persona,
                ),
                builtin: script.3,
                settings: false,
                machine_on: None,
            },
        );
        proof {
            assert(items@.last()@ == rows[i as int]);
            lemma_row_added(so_far, items@, before, rows, i as int);
        }
        i += 1;
    }
    assert(rows.take(rows.len() as int) =~= rows);
}

/// Adds the skills.
fn push_skill_rows(
    items: &mut Vec<FeatureItem>,
    manifest: &PersonaManifest,
    skills: &Vec<(String, String, String, bool)>,
    default_persona: bool,
)
    ensures
        rows_of(final(items)@) == rows_of(old(items)@) + skill_rows(
            manifest@,
            skills@,
            default_persona,
        ),
{
    let ghost before = rows_of(items@);
    let ghost rows = skill_rows(manifest@, skills@, default_persona);
    let mut i: usize = 0;
    while i < skills.len()
        invariant
            i <= skills@.len(),
            rows == skill_rows(manifest@, skills@, default_persona),
            rows_of(items@) =~= before + rows.take(i as int),
        decreases skills@.len() - i,
    {
        let skill = &skills[i];
        let ghost so_far = items@;
        items.push(
            FeatureItem {
                kind: FeatureKind::Skill,
                id: skill.0.clone(),
                name: skill.1.clone(),
                hint: skill.2.clone(),
                on: extension_on(
                    &manifest.plugins.skills,
                    skill.0.as_str(),
                    skill.3,
                    default_persona,
                ),
                builtin: skill.3,
                settings: false,
                machine_on: None,
            },
        );
        proof {
            assert(items@.last()@ == rows[i as int]);
            lemma_row_added(so_far, items@, before, rows, i as int);
        }
        i += 1;
    }
    assert(rows.take(rows.len() as int) =~= rows);
}

/// Adds the servers.
fn push_mcp_rows(
    items: &mut Vec<FeatureItem>,
    manifest: &PersonaManifest,
    servers: &Vec<(String, String, String)>,
    default_persona: bool,
)
    ensures
        rows_of(final(items)@) == rows_of(old(items)@) + mcp_rows(
            manifest@,
            servers@,
            default_persona,
        ),
{
    let ghost before = rows_of(items@);
    let ghost rows = mcp_rows(manifest@, servers@, default_persona);
    let mut i: usize = 0;
    while i < servers.len()
        invariant
            i <= servers@.len(),
            rows == mcp_rows(manifest@, servers@, default_persona),
            rows_of(items@) =~= before + rows.take(i as int),
        decreases servers@.len() - i,
    {
        let server = &servers[i];
        let ghost so_far = items@;
        items.push(
            FeatureItem {
                kind: FeatureKind::Mcp,
                id: server.0.clone(),
                name: name_or(&server.1, &server.0),
                hint: server.2.clone(),
                on: extension_on(
                    &manifest.plugins.mcp,
                    server.0.as_str(),
                    false,
                    default_persona,
                ),
                builtin: false,
                settings: false,
                machine_on: None,
            },
        );
        proof {
            assert(items@.last()@ == rows[i as int]);
            lemma_row_added(so_far, items@, before, rows, i as int);
        }
        i += 1;
    }
    assert(rows.take(rows.len() as int) =~= rows);
}

/// The whole table, as the manifest has it.
pub fn catalog(
    manifest: &PersonaManifest,
    sources: &FeatureSources,
    default_persona: bool,
    scope: CatalogScope,
    config: Option<&AppConfig>,
    locale: Locale,
) -> (items: Vec<FeatureItem>)
    ensures
        rows_of(items@) == table(
            manifest@,
            *sources,
            default_persona,
            scope,
            switches_of(config),
            locale,
        ),
{
    let mut items: Vec<FeatureItem> = Vec::new();
    proof {
        assert(rows_of(items@) + machine_rows(scope, switches_of(config), locale) =~= machine_rows(
            scope,
            switches_of(config),
            locale,
        ));
    }
    push_machine_rows(&mut items, scope, config, locale);
    push_subsystem_rows(&mut items, manifest, sources, scope, locale);
    push_plugin_rows(&mut items, manifest, scope, config, locale);
    push_script_rows(&mut items, manifest, &sources.scripts, default_persona);
    push_skill_rows(&mut items, manifest, &sources.skills, default_persona);
    push_mcp_rows(&mut items, manifest, &sources.mcp_servers, default_persona);
    items
}

/// The switch of a row, where it has one.
pub open spec fn row_switch(kind: FeatureKind, id: Seq<char>) -> Option<MachineSwitch> {
    match kind {
        FeatureKind::Machine => {
            let at = builtin_plugins::feature_at(builtin_plugins::features(), id, 0);
            if at >= 0 {
                Some(builtin_plugins::features()[at].switch)
            } else {
                None
            }
        },
        FeatureKind::Plugin => {
            let at = builtin_plugins::plugin_at(builtin_plugins::plugins(), id, 0);
            if at >= 0 {
                builtin_plugins::plugins()[at].switch
            } else {
                None
            }
        },
        _ => None,
    }
}

/// Whether a row that is ticked has this switch.
pub open spec fn opens(items: Seq<FeatureItem>, switch: MachineSwitch) -> bool {
    exists|i: int|
        0 <= i < items.len() && (#[trigger] items[i]).on && row_switch(items[i].kind, items[i].id@)
            == Some(switch)
}

/// The switch of a row.
fn switch_of(item: &FeatureItem) -> (switch: Option<MachineSwitch>)
    ensures
        switch == row_switch(item.kind, item.id@),
{
    match item.kind {
        FeatureKind::Machine => match machine_feature(item.id.as_str()) {
            Some(feature) => Some(feature.switch),
            None => None,
        },
        FeatureKind::Plugin => match descriptor(item.id.as_str()) {
            Some(plugin) => plugin.switch,
            None => None,
        },
        _ => None,
    }
}

/// Whether `after` is `before` with the switches on that rows which are ticked
/// have.
pub open spec fn are_opened(before: AppConfig, items: Seq<FeatureItem>, after: AppConfig) -> bool {
    &&& forall|switch: MachineSwitch| #[trigger]
        builtin_plugins::is_on(switch, after.switches) == (builtin_plugins::is_on(
            switch,
            before.switches,
        ) || opens(items, switch))
    &&& after.switches.memory == before.switches.memory
    &&& after == (AppConfig { switches: after.switches, ..before })
}

/// Turns on for the machine what is ticked. Nothing is turned off: what is not
/// ticked keeps its settings.
pub fn apply_machine_switches(config: &mut AppConfig, items: &[FeatureItem])
    ensures
        are_opened(*old(config), items@, *final(config)),
{
    let ghost before = *config;
    let mut i: usize = 0;
    while i < items.len()
        invariant
            i <= items@.len(),
            forall|switch: MachineSwitch| #[trigger]
                builtin_plugins::is_on(switch, config.switches) == (builtin_plugins::is_on(
                    switch,
                    before.switches,
                ) || opens(items@.take(i as int), switch)),
            config.switches.memory == before.switches.memory,
            *config == (AppConfig { switches: config.switches, ..before }),
        decreases items@.len() - i,
    {
        let ghost now = config.switches;
        if items[i].on {
            if let Some(switch) = switch_of(&items[i]) {
                switch.set(config, true);
            }
        }
        proof {
            assert forall|switch: MachineSwitch| #[trigger]
                builtin_plugins::is_on(switch, config.switches) == (builtin_plugins::is_on(
                    switch,
                    before.switches,
                ) || opens(items@.take(i + 1), switch)) by {
                assert(builtin_plugins::is_on(switch, now) == (builtin_plugins::is_on(
                    switch,
                    before.switches,
                ) || opens(items@.take(i as int), switch)));
                lemma_opens_step(items@, i as int, switch);
            }
        }
        i += 1;
    }
    assert(items@.take(items@.len() as int) =~= items@);
}

/// One row more.
proof fn lemma_opens_step(items: Seq<FeatureItem>, n: int, switch: MachineSwitch)
    requires
        0 <= n < items.len(),
    ensures
        opens(items.take(n + 1), switch) == (opens(items.take(n), switch) || (items[n].on
            && row_switch(items[n].kind, items[n].id@) == Some(switch))),
{
    let less = items.take(n);
    let more = items.take(n + 1);
    if opens(less, switch) {
        let i = choose|i: int|
            0 <= i < less.len() && (#[trigger] less[i]).on && row_switch(less[i].kind, less[i].id@)
                == Some(switch);
        assert(more[i] == less[i]);
    }
    if opens(more, switch) {
        let i = choose|i: int|
            0 <= i < more.len() && (#[trigger] more[i]).on && row_switch(more[i].kind, more[i].id@)
                == Some(switch);
        if i < n {
            assert(less[i] == more[i]);
        }
    }
    assert(more[n] == items[n]);
}

/// What the last of the first `n` rows of a subsystem says, where there is one.
pub open spec fn last_tick(rows: Seq<ItemView>, id: Seq<char>, n: int) -> Option<bool>
    decreases n,
{
    if n <= 0 {
        None
    } else if rows[n - 1].kind == FeatureKind::Subsystem && rows[n - 1].id == id {
        Some(rows[n - 1].on)
    } else {
        last_tick(rows, id, n - 1)
    }
}

/// Whether a subsystem is used after the first `n` rows were applied.
pub open spec fn flag_after(
    flag: SubsystemFlag,
    subsystems: Subsystems,
    rows: Seq<ItemView>,
    n: int,
) -> bool {
    match last_tick(rows, described(flag).id@, n) {
        Some(on) => on,
        None => flag_in(flag, subsystems),
    }
}

/// What the first row of a plugin says, from `from` on, where there is one.
pub open spec fn first_tick(rows: Seq<ItemView>, id: Seq<char>, from: int) -> Option<bool>
    decreases rows.len() - from,
{
    if from >= rows.len() {
        None
    } else if rows[from].kind == FeatureKind::Plugin && rows[from].id == id {
        Some(rows[from].on)
    } else {
        first_tick(rows, id, from + 1)
    }
}

/// Whether some plugin is not ticked.
pub open spec fn leaves_out(rows: Seq<ItemView>) -> bool {
    exists|i: int|
        0 <= i < rows.len() && (#[trigger] rows[i]).kind == FeatureKind::Plugin && !rows[i].on
}

/// The ids of all plugins.
pub open spec fn all_plugin_ids() -> Seq<Seq<char>> {
    PLUGIN_IDS@.map_values(|id: &'static str| id@)
}

/// The plugins that are used: all where all are ticked. One that is not listed
/// is.
pub open spec fn enabled_after(rows: Seq<ItemView>) -> Option<Seq<Seq<char>>> {
    if leaves_out(rows) {
        Some(all_plugin_ids().filter(|id: Seq<char>| first_tick(rows, id, 0) != Some(false)))
    } else {
        None
    }
}

/// Whether no list is needed: everything is ticked, or, for a persona of the
/// user's own, exactly what did not come with the program.
pub open spec fn needs_no_list(
    rows: Seq<ItemView>,
    kind: FeatureKind,
    default_persona: bool,
) -> bool {
    forall|i: int|
        0 <= i < rows.len() && (#[trigger] rows[i]).kind == kind ==> rows[i].on == (default_persona
            || !rows[i].builtin)
}

/// The ids of the rows of a kind that are ticked.
pub open spec fn ticked_ids(rows: Seq<ItemView>, kind: FeatureKind) -> Seq<Seq<char>> {
    rows.filter(|row: ItemView| row.kind == kind && row.on).map_values(|row: ItemView| row.id)
}

/// The list that the rows of a kind stand for.
pub open spec fn allowed(
    rows: Seq<ItemView>,
    kind: FeatureKind,
    default_persona: bool,
) -> Option<Seq<Seq<char>>> {
    if needs_no_list(rows, kind, default_persona) {
        None
    } else {
        Some(ticked_ids(rows, kind))
    }
}

/// Whether there is a row of a kind.
pub open spec fn has_kind(rows: Seq<ItemView>, kind: FeatureKind) -> bool {
    exists|i: int| 0 <= i < rows.len() && (#[trigger] rows[i]).kind == kind
}

/// The manifest after the ticks of a table were applied. Where no server is
/// listed, the list of servers stays.
pub open spec fn selected(
    manifest: ManifestView,
    rows: Seq<ItemView>,
    default_persona: bool,
) -> ManifestView {
    ManifestView {
        subsystems: Subsystems {
            memory: flag_after(
                SubsystemFlag::Memory,
                manifest.subsystems,
                rows,
                rows.len() as int,
            ),
            persona_reminder: flag_after(
                SubsystemFlag::PersonaReminder,
                manifest.subsystems,
                rows,
                rows.len() as int,
            ),
            voice: flag_after(SubsystemFlag::Voice, manifest.subsystems, rows, rows.len() as int),
            emotion: flag_after(
                SubsystemFlag::Emotion,
                manifest.subsystems,
                rows,
                rows.len() as int,
            ),
        },
        enabled: enabled_after(rows),
        scripts: allowed(rows, FeatureKind::Script, default_persona),
        skills: allowed(rows, FeatureKind::Skill, default_persona),
        mcp: if has_kind(rows, FeatureKind::Mcp) {
            allowed(rows, FeatureKind::Mcp, default_persona)
        } else {
            manifest.mcp
        },
    }
}

/// Two subsystems have different ids.
proof fn lemma_subsystem_ids(a: SubsystemFlag, b: SubsystemFlag)
    requires
        described(a).id@ == described(b).id@,
    ensures
        a == b,
{
    reveal_strlit("voice");
    reveal_strlit("persona_reminder");
    reveal_strlit("emotion");
    reveal_strlit("memory");
    assert("voice"@.len() == 5);
    assert("persona_reminder"@.len() == 16);
    assert("emotion"@.len() == 7);
    assert("memory"@.len() == 6);
}

/// Applies the ticks of the subsystems.
fn apply_subsystems(subsystems: &mut Subsystems, items: &[FeatureItem])
    ensures
        forall|flag: SubsystemFlag| #[trigger]
            flag_in(flag, *final(subsystems)) == flag_after(
                flag,
                *old(subsystems),
                rows_of(items@),
                items@.len() as int,
            ),
{
    let ghost before = *subsystems;
    let ghost rows = rows_of(items@);
    let mut i: usize = 0;
    while i < items.len()
        invariant
            i <= items@.len(),
            rows == rows_of(items@),
            forall|flag: SubsystemFlag| #[trigger]
                flag_in(flag, *subsystems) == flag_after(flag, before, rows, i as int),
        decreases items@.len() - i,
    {
        let ghost now = *subsystems;
        let item = &items[i];
        assert(rows[i as int] == item@);
        let ghost mut row_flag: Option<SubsystemFlag> = None;
        if item.kind == FeatureKind::Subsystem {
            if let Some(flag) = subsystem(item.id.as_str()) {
                flag.set(subsystems, item.on);
                proof {
                    row_flag = Some(flag);
                }
            }
        }
        proof {
            assert forall|flag: SubsystemFlag| #[trigger]
                flag_in(flag, *subsystems) == flag_after(flag, before, rows, i + 1) by {
                assert(flag_in(flag, now) == flag_after(flag, before, rows, i as int));
                assert(last_tick(rows, described(flag).id@, i + 1) == if rows[i as int].kind
                    == FeatureKind::Subsystem && rows[i as int].id == described(flag).id@ {
                    Some(rows[i as int].on)
                } else {
                    last_tick(rows, described(flag).id@, i as int)
                });
                if row_flag is Some && described(flag).id@ == rows[i as int].id {
                    lemma_subsystem_ids(flag, row_flag->0);
                }
            }
        }
        i += 1;
    }
}

/// What the first row of a plugin says.
fn tick_of(items: &[FeatureItem], id: &str) -> (tick: Option<bool>)
    ensures
        tick == first_tick(rows_of(items@), id@, 0),
{
    let ghost rows = rows_of(items@);
    let mut i: usize = 0;
    while i < items.len()
        invariant
            i <= items@.len(),
            rows == rows_of(items@),
            first_tick(rows, id@, 0) == first_tick(rows, id@, i as int),
        decreases items@.len() - i,
    {
        assert(rows[i as int] == items@[i as int]@);
        if items[i].kind == FeatureKind::Plugin && same_text(items[i].id.as_str(), id) {
            return Some(items[i].on);
        }
        i += 1;
    }
    None
}

/// The plugins that are used.
fn enabled_plugins(items: &[FeatureItem]) -> (list: Option<Vec<String>>)
    ensures
        json::opt_texts(list) == enabled_after(rows_of(items@)),
{
    let ghost rows = rows_of(items@);
    let mut off = false;
    let mut i: usize = 0;
    while i < items.len()
        invariant
            i <= items@.len(),
            rows == rows_of(items@),
            off == exists|k: int|
                0 <= k < i && (#[trigger] rows[k]).kind == FeatureKind::Plugin && !rows[k].on,
        decreases items@.len() - i,
    {
        assert(rows[i as int] == items@[i as int]@);
        if items[i].kind == FeatureKind::Plugin && !items[i].on {
            off = true;
        }
        i += 1;
    }
    if !off {
        return None;
    }
    let all: [&'static str; 11] = PLUGIN_IDS;
    let ghost ids = all_plugin_ids();
    let ghost keep = |id: Seq<char>| first_tick(rows, id, 0) != Some(false);
    let mut list: Vec<String> = Vec::new();
    let mut n: usize = 0;
    proof {
        reveal(Seq::filter);
        assert(ids.take(0).filter(keep) =~= Seq::empty());
        assert(json::texts(list@) =~= Seq::empty());
    }
    while n < 11
        invariant
            n <= 11,
            all@.len() == 11,
            all == PLUGIN_IDS,
            ids == all_plugin_ids(),
            rows == rows_of(items@),
            keep == (|id: Seq<char>| first_tick(rows, id, 0) != Some(false)),
            json::texts(list@) =~= ids.take(n as int).filter(keep),
        decreases 11 - n,
    {
        proof {
            crate::table::lemma_filter_step(ids, keep, n as int);
            assert(ids[n as int] == all@[n as int]@);
        }
        let keeps = match tick_of(items, all[n]) {
            Some(on) => on,
            None => true,
        };
        if keeps {
            let ghost before = list@;
            list.push(all[n].to_owned());
            assert(json::texts(list@) =~= json::texts(before).push(ids[n as int]));
        }
        n += 1;
    }
    assert(ids.take(11) =~= ids);
    Some(list)
}

/// The list that the rows of a kind stand for.
fn allowlist(items: &[FeatureItem], kind: FeatureKind, default_persona: bool) -> (list: Option<
    Vec<String>,
>)
    ensures
        json::opt_texts(list) == allowed(rows_of(items@), kind, default_persona),
{
    let ghost rows = rows_of(items@);
    let ghost keep = |row: ItemView| row.kind == kind && row.on;
    let ghost id_of = |row: ItemView| row.id;
    let mut none = true;
    let mut list: Vec<String> = Vec::new();
    let mut i: usize = 0;
    proof {
        reveal(Seq::filter);
        assert(json::texts(list@) =~= rows.take(0).filter(keep).map_values(id_of));
    }
    while i < items.len()
        invariant
            i <= items@.len(),
            rows == rows_of(items@),
            keep == (|row: ItemView| row.kind == kind && row.on),
            id_of == (|row: ItemView| row.id),
            none == forall|k: int|
                0 <= k < i && (#[trigger] rows[k]).kind == kind ==> rows[k].on == (default_persona
                    || !rows[k].builtin),
            json::texts(list@) =~= rows.take(i as int).filter(keep).map_values(id_of),
        decreases items@.len() - i,
    {
        let item = &items[i];
        proof {
            assert(rows[i as int] == item@);
            crate::table::lemma_filter_step(rows, keep, i as int);
        }
        if item.kind == kind {
            if item.on != (default_persona || !item.builtin) {
                none = false;
            }
            if item.on {
                let ghost before = list@;
                let ghost kept = rows.take(i as int).filter(keep);
                list.push(item.id.clone());
                proof {
                    assert(json::texts(list@) =~= json::texts(before).push(item.id@));
                    assert(kept.push(item@).map_values(id_of) =~= kept.map_values(id_of).push(
                        item.id@,
                    ));
                }
            }
        }
        i += 1;
    }
    assert(rows.take(rows.len() as int) =~= rows);
    if none {
        None
    } else {
        Some(list)
    }
}

/// Applies the ticks of a table to a manifest.
pub fn apply_selection(
    manifest: &mut PersonaManifest,
    items: &[FeatureItem],
    default_persona: bool,
)
    ensures
        final(manifest)@ == selected(old(manifest)@, rows_of(items@), default_persona),
{
    let ghost before = manifest@;
    let ghost rows = rows_of(items@);
    apply_subsystems(&mut manifest.subsystems, items);
    manifest.plugins.enabled = enabled_plugins(items);
    manifest.plugins.scripts = allowlist(items, FeatureKind::Script, default_persona);
    manifest.plugins.skills = allowlist(items, FeatureKind::Skill, default_persona);
    let mut servers = false;
    let mut i: usize = 0;
    while i < items.len()
        invariant
            i <= items@.len(),
            rows == rows_of(items@),
            servers == exists|k: int| 0 <= k < i && (#[trigger] rows[k]).kind == FeatureKind::Mcp,
        decreases items@.len() - i,
    {
        assert(rows[i as int] == items@[i as int]@);
        if items[i].kind == FeatureKind::Mcp {
            servers = true;
        }
        i += 1;
    }
    if servers {
        manifest.plugins.mcp = allowlist(items, FeatureKind::Mcp, default_persona);
    }
    proof {
        let now = manifest.subsystems;
        assert(flag_in(SubsystemFlag::Voice, now) == now.voice);
        assert(flag_in(SubsystemFlag::PersonaReminder, now) == now.persona_reminder);
        assert(flag_in(SubsystemFlag::Emotion, now) == now.emotion);
        assert(flag_in(SubsystemFlag::Memory, now) == now.memory);
        assert(manifest@ =~= selected(before, rows, default_persona));
    }
}

// ---------------------------------------------------------------------------
// Laws
// ---------------------------------------------------------------------------

/// Two rows are about the same thing: they differ at most in their tick.
pub open spec fn same_row(a: ItemView, b: ItemView) -> bool {
    a == (ItemView { on: a.on, ..b })
}

/// Two tables have the same rows, ticked or not. What is on or off for the
/// machine is ticked alike.
pub open spec fn same_rows(a: Seq<ItemView>, b: Seq<ItemView>) -> bool {
    &&& a.len() == b.len()
    &&& forall|i: int| 0 <= i < a.len() ==> same_row(#[trigger] a[i], b[i])
    &&& forall|i: int|
        0 <= i < a.len() && (#[trigger] a[i]).kind == FeatureKind::Machine ==> a[i].on == b[i].on
}

/// No two rows of a kind have the same id.
pub open spec fn tells_apart(rows: Seq<ItemView>) -> bool {
    forall|i: int, j: int|
        0 <= i < j < rows.len() ==> (#[trigger] rows[i]).kind != (#[trigger] rows[j]).kind
            || rows[i].id != rows[j].id
}

/// No two scripts, no two skills and no two servers have the same id.
pub open spec fn sources_differ(sources: FeatureSources) -> bool {
    &&& forall|i: int, j: int|
        0 <= i < j < sources.scripts@.len() ==> (#[trigger] sources.scripts@[i]).0@ != (
        #[trigger] sources.scripts@[j]).0@
    &&& forall|i: int, j: int|
        0 <= i < j < sources.skills@.len() ==> (#[trigger] sources.skills@[i]).0@ != (
        #[trigger] sources.skills@[j]).0@
    &&& forall|i: int, j: int|
        0 <= i < j < sources.mcp_servers@.len() ==> (#[trigger] sources.mcp_servers@[i]).0@ != (
        #[trigger] sources.mcp_servers@[j]).0@
}

/// No two plugins have the same id, and all ids are known.
proof fn lemma_plugin_ids()
    ensures
        forall|i: int, j: int|
            0 <= i < j < 11 ==> (#[trigger] builtin_plugins::plugins()[i]).id@ != (
            #[trigger] builtin_plugins::plugins()[j]).id@,
        forall|i: int|
            0 <= i < 11 ==> (#[trigger] builtin_plugins::plugins()[i]).id@ == all_plugin_ids()[i],
        builtin_plugins::plugins().len() == 11,
        all_plugin_ids().len() == 11,
{
    reveal_strlit("alarm");
    reveal_strlit("archlinux");
    reveal_strlit("memes");
    reveal_strlit("image_generation");
    reveal_strlit("ledger");
    reveal_strlit("files");
    reveal_strlit("knowledge_base");
    reveal_strlit("mcp");
    reveal_strlit("scripts");
    reveal_strlit("skills");
    reveal_strlit("platform_outreach");
    let size = |i: int| builtin_plugins::plugins()[i].id@.len();
    assert(size(0) == 5 && size(1) == 9 && size(2) == 5 && size(3) == 16 && size(4) == 6);
    assert(size(5) == 5 && size(6) == 14 && size(7) == 3 && size(8) == 7 && size(9) == 6);
    assert(size(10) == 17);
    assert("alarm"@[0] == 'a' && "memes"@[0] == 'm' && "files"@[0] == 'f');
    assert("ledger"@[0] == 'l' && "skills"@[0] == 's');
    assert forall|i: int, j: int| 0 <= i < j < 11 implies (
    #[trigger] builtin_plugins::plugins()[i]).id@ != (#[trigger] builtin_plugins::plugins()[j]).id@ by {
        assert(size(i) == builtin_plugins::plugins()[i].id@.len());
        assert(size(j) == builtin_plugins::plugins()[j].id@.len());
    }
}

/// The rows of plugins differ in their ids, which are known.
proof fn lemma_plugin_rows(
    manifest: ManifestView,
    scope: CatalogScope,
    switches: Option<Switches>,
    locale: Locale,
)
    ensures
        ({
            let rows = plugin_rows(manifest, scope, switches, locale);
            &&& forall|i: int, j: int|
                0 <= i < j < rows.len() ==> (#[trigger] rows[i]).id != (#[trigger] rows[j]).id
            &&& forall|i: int| 0 <= i < rows.len() ==> all_plugin_ids().contains((#[trigger] rows[i]).id)
        }),
{
    let all = builtin_plugins::plugins();
    let keep = |plugin: BuiltinPluginDescriptor| lists_plugin(plugin, scope);
    let kept = all.filter(keep);
    let rows = plugin_rows(manifest, scope, switches, locale);
    lemma_plugin_ids();
    assert(all.no_duplicates());
    crate::table::lemma_filter_distinct(all, keep);
    assert forall|i: int| 0 <= i < rows.len() implies all_plugin_ids().contains(
        (#[trigger] rows[i]).id,
    ) by {
        all.lemma_filter_contains_rev(keep, kept[i]);
        let k = choose|k: int| 0 <= k < all.len() && all[k] == kept[i];
        assert(all_plugin_ids()[k] == rows[i].id);
    }
    assert forall|i: int, j: int| 0 <= i < j < rows.len() implies (#[trigger] rows[i]).id != (
    #[trigger] rows[j]).id by {
        all.lemma_filter_contains_rev(keep, kept[i]);
        all.lemma_filter_contains_rev(keep, kept[j]);
        let k = choose|k: int| 0 <= k < all.len() && all[k] == kept[i];
        let l = choose|l: int| 0 <= l < all.len() && all[l] == kept[j];
        assert(k != l);
        if k < l {
            assert(all[k].id@ != all[l].id@);
        } else {
            assert(all[l].id@ != all[k].id@);
        }
    }
}

/// The rows of subsystems differ in their ids.
proof fn lemma_subsystem_rows(
    manifest: ManifestView,
    sources: FeatureSources,
    scope: CatalogScope,
    locale: Locale,
)
    ensures
        ({
            let rows = subsystem_rows(manifest, sources, scope, locale);
            forall|i: int, j: int|
                0 <= i < j < rows.len() ==> (#[trigger] rows[i]).id != (#[trigger] rows[j]).id
        }),
{
    let keep = |flag: SubsystemFlag| lists_subsystem(flag, sources, scope);
    let kept = SUBSYSTEMS@.filter(keep);
    let rows = subsystem_rows(manifest, sources, scope, locale);
    assert(SUBSYSTEMS@.no_duplicates());
    crate::table::lemma_filter_distinct(SUBSYSTEMS@, keep);
    assert forall|i: int, j: int| 0 <= i < j < rows.len() implies (#[trigger] rows[i]).id != (
    #[trigger] rows[j]).id by {
        if rows[i].id == rows[j].id {
            lemma_subsystem_ids(kept[i], kept[j]);
        }
    }
}

/// Rows of one kind that differ in their ids.
pub open spec fn is_section(rows: Seq<ItemView>, kind: FeatureKind) -> bool {
    &&& forall|i: int| 0 <= i < rows.len() ==> (#[trigger] rows[i]).kind == kind
    &&& forall|i: int, j: int|
        0 <= i < j < rows.len() ==> (#[trigger] rows[i]).id != (#[trigger] rows[j]).id
}

/// Adding rows of a kind that was not there.
proof fn lemma_apart_add(rows: Seq<ItemView>, more: Seq<ItemView>, kind: FeatureKind)
    requires
        tells_apart(rows),
        is_section(more, kind),
        !has_kind(rows, kind),
    ensures
        tells_apart(rows + more),
        forall|other: FeatureKind|
            !has_kind(rows, other) && other != kind ==> !#[trigger] has_kind(rows + more, other),
{
    let all = rows + more;
    let n = rows.len() as int;
    assert forall|i: int| n <= i < all.len() implies (#[trigger] all[i]) == more[i - n] by {}
    assert forall|i: int, j: int| 0 <= i < j < all.len() implies (#[trigger] all[i]).kind != (
    #[trigger] all[j]).kind || all[i].id != all[j].id by {
        if j < n {
            assert(all[i] == rows[i] && all[j] == rows[j]);
        } else if i < n {
            assert(all[i] == rows[i]);
        } else {
            assert(more[i - n].id != more[j - n].id);
        }
    }
    assert forall|other: FeatureKind| !has_kind(rows, other) && other != kind implies !(
    #[trigger] has_kind(all, other)) by {
        if has_kind(all, other) {
            let i = choose|i: int| 0 <= i < all.len() && (#[trigger] all[i]).kind == other;
            if i < n {
                assert(rows[i].kind == other);
            } else {
                assert(more[i - n].kind == other);
            }
        }
    }
}

/// What is on or off for the machine differs in its ids.
proof fn lemma_machine_rows(scope: CatalogScope, switches: Option<Switches>, locale: Locale)
    ensures
        is_section(machine_rows(scope, switches, locale), FeatureKind::Machine),
{
    reveal_strlit("web");
    reveal_strlit("vision");
    assert("web"@.len() == 3 && "vision"@.len() == 6);
}

/// The sections of a table.
proof fn lemma_sections(
    manifest: ManifestView,
    sources: FeatureSources,
    default_persona: bool,
    scope: CatalogScope,
    switches: Option<Switches>,
    locale: Locale,
)
    requires
        sources_differ(sources),
    ensures
        is_section(machine_rows(scope, switches, locale), FeatureKind::Machine),
        is_section(subsystem_rows(manifest, sources, scope, locale), FeatureKind::Subsystem),
        is_section(plugin_rows(manifest, scope, switches, locale), FeatureKind::Plugin),
        is_section(
            script_rows(manifest, sources.scripts@, default_persona),
            FeatureKind::Script,
        ),
        is_section(skill_rows(manifest, sources.skills@, default_persona), FeatureKind::Skill),
        is_section(mcp_rows(manifest, sources.mcp_servers@, default_persona), FeatureKind::Mcp),
{
    lemma_machine_rows(scope, switches, locale);
    lemma_subsystem_rows(manifest, sources, scope, locale);
    lemma_plugin_rows(manifest, scope, switches, locale);
    let d = script_rows(manifest, sources.scripts@, default_persona);
    assert forall|i: int, j: int| 0 <= i < j < d.len() implies (#[trigger] d[i]).id != (
    #[trigger] d[j]).id by {
        assert(sources.scripts@[i].0@ != sources.scripts@[j].0@);
    }
    let e = skill_rows(manifest, sources.skills@, default_persona);
    assert forall|i: int, j: int| 0 <= i < j < e.len() implies (#[trigger] e[i]).id != (
    #[trigger] e[j]).id by {
        assert(sources.skills@[i].0@ != sources.skills@[j].0@);
    }
    let f = mcp_rows(manifest, sources.mcp_servers@, default_persona);
    assert forall|i: int, j: int| 0 <= i < j < f.len() implies (#[trigger] f[i]).id != (
    #[trigger] f[j]).id by {
        assert(sources.mcp_servers@[i].0@ != sources.mcp_servers@[j].0@);
    }
}

/// No two rows of a kind have the same id where no two scripts, no two skills
/// and no two servers do.
pub proof fn rows_are_told_apart(
    manifest: ManifestView,
    sources: FeatureSources,
    default_persona: bool,
    scope: CatalogScope,
    switches: Option<Switches>,
    locale: Locale,
)
    requires
        sources_differ(sources),
    ensures
        tells_apart(table(manifest, sources, default_persona, scope, switches, locale)),
{
    let a = machine_rows(scope, switches, locale);
    let b = subsystem_rows(manifest, sources, scope, locale);
    let c = plugin_rows(manifest, scope, switches, locale);
    let d = script_rows(manifest, sources.scripts@, default_persona);
    let e = skill_rows(manifest, sources.skills@, default_persona);
    let f = mcp_rows(manifest, sources.mcp_servers@, default_persona);
    lemma_sections(manifest, sources, default_persona, scope, switches, locale);
    lemma_apart_add(Seq::empty(), a, FeatureKind::Machine);
    assert(Seq::<ItemView>::empty() + a =~= a);
    lemma_apart_add(a, b, FeatureKind::Subsystem);
    lemma_apart_add(a + b, c, FeatureKind::Plugin);
    lemma_apart_add(a + b + c, d, FeatureKind::Script);
    lemma_apart_add(a + b + c + d, e, FeatureKind::Skill);
    lemma_apart_add(a + b + c + d + e, f, FeatureKind::Mcp);
}

/// Whether a row is one that a table may have.
pub open spec fn is_known(row: ItemView) -> bool {
    match row.kind {
        FeatureKind::Subsystem => exists|flag: SubsystemFlag| (#[trigger] described(flag)).id@
            == row.id,
        FeatureKind::Plugin => all_plugin_ids().contains(row.id),
        FeatureKind::Mcp => !row.builtin,
        _ => true,
    }
}

/// Whether a row is ticked as a manifest has it. What is on or off for the
/// machine is no matter of the manifest.
pub open spec fn agrees(row: ItemView, manifest: ManifestView, default_persona: bool) -> bool {
    match row.kind {
        FeatureKind::Subsystem => forall|flag: SubsystemFlag|
            (#[trigger] described(flag)).id@ == row.id ==> row.on == flag_in(
                flag,
                manifest.subsystems,
            ),
        FeatureKind::Plugin => row.on == persona_manifest::uses(manifest, row.id),
        FeatureKind::Script => row.on == ticked(
            manifest.scripts,
            row.id,
            row.builtin,
            default_persona,
        ),
        FeatureKind::Skill => row.on == ticked(
            manifest.skills,
            row.id,
            row.builtin,
            default_persona,
        ),
        FeatureKind::Mcp => row.on == ticked(manifest.mcp, row.id, row.builtin, default_persona),
        FeatureKind::Machine => true,
    }
}

/// Which section a row stands in.
proof fn lemma_row_at(
    a: Seq<ItemView>,
    b: Seq<ItemView>,
    c: Seq<ItemView>,
    d: Seq<ItemView>,
    e: Seq<ItemView>,
    f: Seq<ItemView>,
    i: int,
)
    requires
        0 <= i < (a + b + c + d + e + f).len(),
    ensures
        ({
            let n1 = a.len() as int;
            let n2 = n1 + b.len();
            let n3 = n2 + c.len();
            let n4 = n3 + d.len();
            let n5 = n4 + e.len();
            (a + b + c + d + e + f)[i] == (if i < n1 {
                a[i]
            } else if i < n2 {
                b[i - n1]
            } else if i < n3 {
                c[i - n2]
            } else if i < n4 {
                d[i - n3]
            } else if i < n5 {
                e[i - n4]
            } else {
                f[i - n5]
            })
        }),
{
}

/// What a table says of a row, whatever the manifest: only ticks depend on it.
proof fn lemma_row_of_table(
    manifest: ManifestView,
    other: ManifestView,
    sources: FeatureSources,
    default_persona: bool,
    scope: CatalogScope,
    switches: Option<Switches>,
    locale: Locale,
    i: int,
)
    requires
        0 <= i < table(manifest, sources, default_persona, scope, switches, locale).len(),
    ensures
        ({
            let rows = table(manifest, sources, default_persona, scope, switches, locale);
            let others = table(other, sources, default_persona, scope, switches, locale);
            &&& others.len() == rows.len()
            &&& is_known(rows[i])
            &&& agrees(rows[i], manifest, default_persona)
            &&& same_row(rows[i], others[i])
            &&& rows[i].kind == FeatureKind::Machine ==> rows[i] == others[i]
        }),
{
    let a = machine_rows(scope, switches, locale);
    let b = subsystem_rows(manifest, sources, scope, locale);
    let c = plugin_rows(manifest, scope, switches, locale);
    let d = script_rows(manifest, sources.scripts@, default_persona);
    let e = skill_rows(manifest, sources.skills@, default_persona);
    let f = mcp_rows(manifest, sources.mcp_servers@, default_persona);
    let b2 = subsystem_rows(other, sources, scope, locale);
    let c2 = plugin_rows(other, scope, switches, locale);
    let d2 = script_rows(other, sources.scripts@, default_persona);
    let e2 = skill_rows(other, sources.skills@, default_persona);
    let f2 = mcp_rows(other, sources.mcp_servers@, default_persona);
    lemma_row_at(a, b, c, d, e, f, i);
    lemma_row_at(a, b2, c2, d2, e2, f2, i);
    lemma_plugin_rows(manifest, scope, switches, locale);
    let n1 = a.len() as int;
    let n2 = n1 + b.len();
    if n1 <= i < n2 {
        let keep = |flag: SubsystemFlag| lists_subsystem(flag, sources, scope);
        let flag = SUBSYSTEMS@.filter(keep)[i - n1];
        assert(b[i - n1] == subsystem_row(flag, manifest, locale));
        assert(b[i - n1].id == described(flag).id@);
        assert forall|known: SubsystemFlag|
            (#[trigger] described(known)).id@ == b[i - n1].id implies b[i - n1].on == flag_in(
            known,
            manifest.subsystems,
        ) by {
            lemma_subsystem_ids(known, flag);
        }
    }
}

/// The last row of a subsystem, where there is only one.
proof fn lemma_last_tick(rows: Seq<ItemView>, i: int, n: int)
    requires
        tells_apart(rows),
        0 <= i < n <= rows.len(),
        rows[i].kind == FeatureKind::Subsystem,
    ensures
        last_tick(rows, rows[i].id, n) == Some(rows[i].on),
    decreases n,
{
    if n - 1 != i {
        assert(rows[i].kind != rows[n - 1].kind || rows[i].id != rows[n - 1].id);
        lemma_last_tick(rows, i, n - 1);
    }
}

/// The first row of a plugin, where there is only one.
proof fn lemma_first_tick(rows: Seq<ItemView>, i: int, from: int)
    requires
        tells_apart(rows),
        0 <= from <= i < rows.len(),
        rows[i].kind == FeatureKind::Plugin,
    ensures
        first_tick(rows, rows[i].id, from) == Some(rows[i].on),
    decreases i - from,
{
    if from != i {
        assert(rows[from].kind != rows[i].kind || rows[from].id != rows[i].id);
        lemma_first_tick(rows, i, from + 1);
    }
}

/// The list that rows stand for ticks them as they are.
proof fn lemma_allowed(rows: Seq<ItemView>, kind: FeatureKind, default_persona: bool, i: int)
    requires
        tells_apart(rows),
        0 <= i < rows.len(),
        rows[i].kind == kind,
    ensures
        rows[i].on == ticked(
            allowed(rows, kind, default_persona),
            rows[i].id,
            rows[i].builtin,
            default_persona,
        ),
{
    if !needs_no_list(rows, kind, default_persona) {
        let keep = |row: ItemView| row.kind == kind && row.on;
        let kept = rows.filter(keep);
        let ids = ticked_ids(rows, kind);
        if rows[i].on {
            rows.lemma_filter_contains(keep, i);
            let k = choose|k: int| 0 <= k < kept.len() && kept[k] == rows[i];
            assert(ids[k] == rows[i].id);
        } else if ids.contains(rows[i].id) {
            let k = choose|k: int| 0 <= k < ids.len() && ids[k] == rows[i].id;
            rows.lemma_filter_contains_rev(keep, kept[k]);
            crate::table::lemma_filtered(rows, keep, k);
            let j = choose|j: int| 0 <= j < rows.len() && rows[j] == kept[k];
            if j < i {
                assert(rows[j].kind != rows[i].kind || rows[j].id != rows[i].id);
            } else if i < j {
                assert(rows[i].kind != rows[j].kind || rows[i].id != rows[j].id);
            }
        }
    }
}

/// The list of plugins that rows stand for ticks them as they are.
proof fn lemma_enabled(rows: Seq<ItemView>, manifest: ManifestView, i: int)
    requires
        tells_apart(rows),
        0 <= i < rows.len(),
        rows[i].kind == FeatureKind::Plugin,
        is_known(rows[i]),
        manifest.enabled == enabled_after(rows),
    ensures
        rows[i].on == persona_manifest::uses(manifest, rows[i].id),
{
    if leaves_out(rows) {
        lemma_first_tick(rows, i, 0);
        let keep = |id: Seq<char>| first_tick(rows, id, 0) != Some(false);
        let ids = all_plugin_ids();
        let k = choose|k: int| 0 <= k < ids.len() && ids[k] == rows[i].id;
        if rows[i].on {
            ids.lemma_filter_contains(keep, k);
        } else if ids.filter(keep).contains(rows[i].id) {
            let m = choose|m: int|
                0 <= m < ids.filter(keep).len() && ids.filter(keep)[m] == rows[i].id;
            crate::table::lemma_filtered(ids, keep, m);
        }
    }
}

/// After the ticks were applied, each row is ticked as the manifest has it.
proof fn lemma_selected_agrees(
    manifest: ManifestView,
    rows: Seq<ItemView>,
    default_persona: bool,
    i: int,
)
    requires
        tells_apart(rows),
        0 <= i < rows.len(),
        is_known(rows[i]),
    ensures
        agrees(rows[i], selected(manifest, rows, default_persona), default_persona),
{
    let after = selected(manifest, rows, default_persona);
    match rows[i].kind {
        FeatureKind::Subsystem => {
            assert forall|flag: SubsystemFlag|
                (#[trigger] described(flag)).id@ == rows[i].id implies rows[i].on == flag_in(
                flag,
                after.subsystems,
            ) by {
                lemma_last_tick(rows, i, rows.len() as int);
                assert(flag_after(flag, manifest.subsystems, rows, rows.len() as int)
                    == rows[i].on);
            }
        },
        FeatureKind::Plugin => {
            lemma_enabled(rows, after, i);
        },
        FeatureKind::Script => {
            lemma_allowed(rows, FeatureKind::Script, default_persona, i);
        },
        FeatureKind::Skill => {
            lemma_allowed(rows, FeatureKind::Skill, default_persona, i);
        },
        FeatureKind::Mcp => {
            lemma_allowed(rows, FeatureKind::Mcp, default_persona, i);
        },
        FeatureKind::Machine => {},
    }
}

/// A table that is shown again after its ticks were applied is ticked as it
/// was left, whatever was ticked: no two scripts, skills or servers may have
/// the same id, and what is on or off for the machine is applied to the
/// machine.
pub proof fn ticks_come_back(
    manifest: ManifestView,
    sources: FeatureSources,
    default_persona: bool,
    scope: CatalogScope,
    switches: Option<Switches>,
    locale: Locale,
    rows: Seq<ItemView>,
)
    requires
        sources_differ(sources),
        same_rows(rows, table(manifest, sources, default_persona, scope, switches, locale)),
    ensures
        table(
            selected(manifest, rows, default_persona),
            sources,
            default_persona,
            scope,
            switches,
            locale,
        ) == rows,
{
    let shown = table(manifest, sources, default_persona, scope, switches, locale);
    let after = selected(manifest, rows, default_persona);
    let again = table(after, sources, default_persona, scope, switches, locale);
    rows_are_told_apart(manifest, sources, default_persona, scope, switches, locale);
    assert(tells_apart(rows)) by {
        assert forall|i: int, j: int| 0 <= i < j < rows.len() implies (#[trigger] rows[i]).kind != (
        #[trigger] rows[j]).kind || rows[i].id != rows[j].id by {
            assert(same_row(rows[i], shown[i]) && same_row(rows[j], shown[j]));
            assert(shown[i].kind != shown[j].kind || shown[i].id != shown[j].id);
        }
    }
    lemma_same_length(manifest, after, sources, default_persona, scope, switches, locale);
    assert forall|i: int| 0 <= i < rows.len() implies #[trigger] again[i] == rows[i] by {
        lemma_row_of_table(
            manifest,
            after,
            sources,
            default_persona,
            scope,
            switches,
            locale,
            i,
        );
        lemma_row_of_table(after, manifest, sources, default_persona, scope, switches, locale, i);
        assert(same_row(rows[i], shown[i]));
        lemma_selected_agrees(manifest, rows, default_persona, i);
        if rows[i].kind == FeatureKind::Subsystem {
            let flag = choose|flag: SubsystemFlag| (#[trigger] described(flag)).id@ == rows[i].id;
            assert(rows[i].on == flag_in(flag, after.subsystems));
            assert(again[i].on == flag_in(flag, after.subsystems));
        }
    }
    assert(again =~= rows);
}

/// Tables of different manifests have as many rows.
proof fn lemma_same_length(
    manifest: ManifestView,
    other: ManifestView,
    sources: FeatureSources,
    default_persona: bool,
    scope: CatalogScope,
    switches: Option<Switches>,
    locale: Locale,
)
    ensures
        table(manifest, sources, default_persona, scope, switches, locale).len() == table(
            other,
            sources,
            default_persona,
            scope,
            switches,
            locale,
        ).len(),
{
}

/// Where everything is ticked, the default persona needs no list, so that what
/// is added later is used as well.
pub proof fn all_on_needs_no_lists(manifest: ManifestView, rows: Seq<ItemView>)
    requires
        forall|i: int| 0 <= i < rows.len() ==> (#[trigger] rows[i]).on,
    ensures
        ({
            let after = selected(manifest, rows, true);
            &&& after.enabled is None
            &&& after.scripts is None
            &&& after.skills is None
            &&& has_kind(rows, FeatureKind::Mcp) ==> after.mcp is None
        }),
{
}

/// What a new user sees is what is shown in the settings with rows left out:
/// each row is the same, and they are in the same order.
pub proof fn onboarding_leaves_rows_out(
    manifest: ManifestView,
    sources: FeatureSources,
    default_persona: bool,
    switches: Option<Switches>,
    locale: Locale,
)
    ensures
        exists|place: spec_fn(int) -> int| #[trigger]
            crate::table::is_embedding(
                table(
                    manifest,
                    sources,
                    default_persona,
                    CatalogScope::Onboarding,
                    switches,
                    locale,
                ),
                table(
                    manifest,
                    sources,
                    default_persona,
                    CatalogScope::Settings,
                    switches,
                    locale,
                ),
                place,
            ),
{
    let new = CatalogScope::Onboarding;
    let all = CatalogScope::Settings;
    let few = machine_rows(new, switches, locale);
    let many = machine_rows(all, switches, locale);
    let nowhere = |i: int| 0int;
    assert(crate::table::is_embedding(few, many, nowhere));
    let flags = crate::table::lemma_filters_embed(
        SUBSYSTEMS@,
        |flag: SubsystemFlag| lists_subsystem(flag, sources, new),
        |flag: SubsystemFlag| lists_subsystem(flag, sources, all),
    );
    crate::table::lemma_maps_embed(
        SUBSYSTEMS@.filter(|flag: SubsystemFlag| lists_subsystem(flag, sources, new)),
        SUBSYSTEMS@.filter(|flag: SubsystemFlag| lists_subsystem(flag, sources, all)),
        flags,
        |flag: SubsystemFlag| subsystem_row(flag, manifest, locale),
    );
    let plugins = crate::table::lemma_filters_embed(
        builtin_plugins::plugins(),
        |plugin: BuiltinPluginDescriptor| lists_plugin(plugin, new),
        |plugin: BuiltinPluginDescriptor| lists_plugin(plugin, all),
    );
    crate::table::lemma_maps_embed(
        builtin_plugins::plugins().filter(
            |plugin: BuiltinPluginDescriptor| lists_plugin(plugin, new),
        ),
        builtin_plugins::plugins().filter(
            |plugin: BuiltinPluginDescriptor| lists_plugin(plugin, all),
        ),
        plugins,
        |plugin: BuiltinPluginDescriptor| plugin_row(plugin, manifest, switches, locale),
    );
    let a = subsystem_rows(manifest, sources, new, locale);
    let b = subsystem_rows(manifest, sources, all, locale);
    let c = plugin_rows(manifest, new, switches, locale);
    let d = plugin_rows(manifest, all, switches, locale);
    let first = crate::table::lemma_joined_embed(few, many, nowhere, a, b, flags);
    let second = crate::table::lemma_joined_embed(few + a, many + b, first, c, d, plugins);
    let scripts = script_rows(manifest, sources.scripts@, default_persona);
    let skills = skill_rows(manifest, sources.skills@, default_persona);
    let servers = mcp_rows(manifest, sources.mcp_servers@, default_persona);
    let same = |i: int| i;
    assert(crate::table::is_embedding(scripts, scripts, same));
    assert(crate::table::is_embedding(skills, skills, same));
    assert(crate::table::is_embedding(servers, servers, same));
    let third = crate::table::lemma_joined_embed(
        few + a + c,
        many + b + d,
        second,
        scripts,
        scripts,
        same,
    );
    let fourth = crate::table::lemma_joined_embed(
        few + a + c + scripts,
        many + b + d + scripts,
        third,
        skills,
        skills,
        same,
    );
    let fifth = crate::table::lemma_joined_embed(
        few + a + c + scripts + skills,
        many + b + d + scripts + skills,
        fourth,
        servers,
        servers,
        same,
    );
    assert(few + a + c + scripts + skills + servers == table(
        manifest,
        sources,
        default_persona,
        new,
        switches,
        locale,
    ));
    assert(many + b + d + scripts + skills + servers == table(
        manifest,
        sources,
        default_persona,
        all,
        switches,
        locale,
    ));
}

/// Each subsystem is a flag of its own, and is there where the machine has it;
/// memory always is.
pub proof fn subsystems_are_flags(
    flag: SubsystemFlag,
    subsystems: &Subsystems,
    sources: &FeatureSources,
    on: bool,
    there: bool,
)
    requires
        call_ensures(SubsystemFlag::get, (flag, subsystems), on),
        call_ensures(SubsystemFlag::available, (flag, sources), there),
    ensures
        flag == SubsystemFlag::Voice ==> on == subsystems.voice && there == sources.voice_available,
        flag == SubsystemFlag::PersonaReminder ==> on == subsystems.persona_reminder && there
            == sources.persona_reminder_available,
        flag == SubsystemFlag::Emotion ==> on == subsystems.emotion && there
            == sources.emotion_available,
        flag == SubsystemFlag::Memory ==> on == subsystems.memory && there,
{
}

/// A subsystem that was set is as it was set, and every other is as it was.
pub proof fn only_the_flag_is_set(
    flag: SubsystemFlag,
    other: SubsystemFlag,
    subsystems: Subsystems,
    on: bool,
)
    ensures
        flag_in(other, flagged(flag, subsystems, on)) == (if other == flag {
            on
        } else {
            flag_in(other, subsystems)
        }),
{
}

/// A subsystem is found by the id that it is listed under. A new user is asked
/// about all but memory, and all but the reminder have settings.
pub proof fn subsystems_are_found_by_id(
    id: &str,
    found: Option<SubsystemFlag>,
    flag: SubsystemFlag,
    row: SubsystemDescriptor,
)
    requires
        call_ensures(subsystem, (id,), found),
        call_ensures(SubsystemFlag::descriptor, (flag,), row),
    ensures
        row.id@ == id@ <==> found == Some(flag),
        row.in_onboarding == (flag != SubsystemFlag::Memory),
        row.settings == (flag != SubsystemFlag::PersonaReminder),
        flag == SubsystemFlag::Voice ==> row.id@ == "voice"@,
        flag == SubsystemFlag::PersonaReminder ==> row.id@ == "persona_reminder"@,
        flag == SubsystemFlag::Emotion ==> row.id@ == "emotion"@,
        flag == SubsystemFlag::Memory ==> row.id@ == "memory"@,
{
    assert(row == described(flag));
    if let Some(other) = found {
        if described(other).id@ == described(flag).id@ {
            lemma_subsystem_ids(other, flag);
        }
    }
}

/// The plugins that a new user is not asked about are all but those they are,
/// in order.
pub proof fn the_others_are_always_on(ids: Vec<&'static str>)
    requires
        call_ensures(always_on_plugins, (), ids),
    ensures
        crate::table::is_rest(
            PLUGIN_IDS@,
            ids@,
            |id: &'static str| exists|i: int|
                0 <= i < TOGGLE_PLUGINS@.len() && (#[trigger] TOGGLE_PLUGINS@[i])@ == id@,
        ),
{
    let chosen = |id: &'static str| !builtin_plugins::is_id(TOGGLE_PLUGINS@, id@);
    let gone = |id: &'static str| exists|i: int|
        0 <= i < TOGGLE_PLUGINS@.len() && (#[trigger] TOGGLE_PLUGINS@[i])@ == id@;
    crate::table::lemma_chosen_rest(PLUGIN_IDS@, chosen, gone);
    assert(ids@ == PLUGIN_IDS@.filter(chosen));
}

/// What is ticked that came with the program, or not: for the default persona,
/// and for what did not come with the program, what is named or is not listed;
/// for what came with the program and a persona of the user's own, what is
/// named.
pub open spec fn is_ticked(
    list: Option<Vec<String>>,
    id: Seq<char>,
    builtin: bool,
    default_persona: bool,
) -> bool {
    match list {
        None => default_persona || !builtin,
        Some(list) => exists|i: int| 0 <= i < list@.len() && (#[trigger] list@[i])@ == id,
    }
}

proof fn lemma_is_ticked(
    list: Option<Vec<String>>,
    id: Seq<char>,
    builtin: bool,
    default_persona: bool,
)
    ensures
        ticked(json::opt_texts(list), id, builtin, default_persona) == is_ticked(
            list,
            id,
            builtin,
            default_persona,
        ),
{
    if let Some(names) = list {
        json::lemma_listed(names@, id);
    }
}

/// The table ends with the scripts, the skills and the servers of the machine,
/// in this order and each in its own. A script or a server with a blank name
/// goes by its id.
pub proof fn extensions_are_listed(
    manifest: &PersonaManifest,
    sources: &FeatureSources,
    default_persona: bool,
    scope: CatalogScope,
    config: Option<&AppConfig>,
    locale: Locale,
    items: Vec<FeatureItem>,
    i: int,
)
    requires
        call_ensures(catalog, (manifest, sources, default_persona, scope, config, locale), items),
    ensures
        ({
            let servers = items@.len() - sources.mcp_servers@.len();
            let skills = servers - sources.skills@.len();
            let scripts = skills - sources.scripts@.len();
            &&& scripts >= 0
            &&& 0 <= i < sources.scripts@.len() ==> {
                let row = items@[scripts + i]@;
                let script = sources.scripts@[i];
                row == ItemView {
                    kind: FeatureKind::Script,
                    id: script.0@,
                    name: if text::trim(script.1@).len() > 0 {
                        script.1@
                    } else {
                        script.0@
                    },
                    hint: script.2@,
                    on: is_ticked(manifest.plugins.scripts, script.0@, script.3, default_persona),
                    builtin: script.3,
                    settings: false,
                    machine_on: None,
                }
            }
            &&& 0 <= i < sources.skills@.len() ==> {
                let row = items@[skills + i]@;
                let skill = sources.skills@[i];
                row == ItemView {
                    kind: FeatureKind::Skill,
                    id: skill.0@,
                    name: skill.1@,
                    hint: skill.2@,
                    on: is_ticked(manifest.plugins.skills, skill.0@, skill.3, default_persona),
                    builtin: skill.3,
                    settings: false,
                    machine_on: None,
                }
            }
            &&& 0 <= i < sources.mcp_servers@.len() ==> {
                let row = items@[servers + i]@;
                let server = sources.mcp_servers@[i];
                row == ItemView {
                    kind: FeatureKind::Mcp,
                    id: server.0@,
                    name: if text::trim(server.1@).len() > 0 {
                        server.1@
                    } else {
                        server.0@
                    },
                    hint: server.2@,
                    on: is_ticked(manifest.plugins.mcp, server.0@, false, default_persona),
                    builtin: false,
                    settings: false,
                    machine_on: None,
                }
            }
        }),
{
    let rows = rows_of(items@);
    let view = manifest@;
    let switches = switches_of(config);
    let first = machine_rows(scope, switches, locale) + subsystem_rows(view, *sources, scope, locale)
        + plugin_rows(view, scope, switches, locale);
    let b = script_rows(view, sources.scripts@, default_persona);
    let c = skill_rows(view, sources.skills@, default_persona);
    let d = mcp_rows(view, sources.mcp_servers@, default_persona);
    assert(rows == first + b + c + d);
    let servers = items@.len() - sources.mcp_servers@.len();
    let skills = servers - sources.skills@.len();
    let scripts = skills - sources.scripts@.len();
    assert(rows.len() == first.len() + b.len() + c.len() + d.len());
    assert(scripts == first.len());
    if 0 <= i < sources.scripts@.len() {
        assert(rows[scripts + i] == b[i]);
        assert(items@[scripts + i]@ == rows[scripts + i]);
        let script = sources.scripts@[i];
        lemma_is_ticked(manifest.plugins.scripts, script.0@, script.3, default_persona);
    }
    if 0 <= i < sources.skills@.len() {
        assert(rows[skills + i] == c[i]);
        assert(items@[skills + i]@ == rows[skills + i]);
        let skill = sources.skills@[i];
        lemma_is_ticked(manifest.plugins.skills, skill.0@, skill.3, default_persona);
    }
    if 0 <= i < sources.mcp_servers@.len() {
        assert(rows[servers + i] == d[i]);
        assert(items@[servers + i]@ == rows[servers + i]);
        let server = sources.mcp_servers@[i];
        lemma_is_ticked(manifest.plugins.mcp, server.0@, false, default_persona);
    }
}

/// What is on or off for the machine comes first, in the settings alone: the
/// web and vision, ticked as the machine has them.
pub proof fn the_machine_comes_first(
    manifest: &PersonaManifest,
    sources: &FeatureSources,
    default_persona: bool,
    scope: CatalogScope,
    config: Option<&AppConfig>,
    locale: Locale,
    items: Vec<FeatureItem>,
    i: int,
)
    requires
        call_ensures(catalog, (manifest, sources, default_persona, scope, config, locale), items),
        0 <= i < items@.len(),
    ensures
        items@[i].kind == FeatureKind::Machine <==> scope == CatalogScope::Settings && i < 2,
        scope == CatalogScope::Settings && i < 2 ==> {
            let on = config matches Some(config) && if i == 0 {
                config.switches.web
            } else {
                config.switches.vision
            };
            &&& items@[i].id@ == (if i == 0 {
                "web"@
            } else {
                "vision"@
            })
            &&& items@[i].on == on
            &&& items@[i].machine_on == Some(on)
            &&& items@[i].settings && !items@[i].builtin
        },
{
    let rows = rows_of(items@);
    let view = manifest@;
    let switches = switches_of(config);
    let a = machine_rows(scope, switches, locale);
    let s = subsystem_rows(view, *sources, scope, locale);
    let g = plugin_rows(view, scope, switches, locale);
    let b = script_rows(view, sources.scripts@, default_persona);
    let c = skill_rows(view, sources.skills@, default_persona);
    let d = mcp_rows(view, sources.mcp_servers@, default_persona);
    assert(rows == a + s + g + b + c + d);
    assert(items@[i]@ == rows[i]);
    let n = a.len() as int;
    if i < n {
        assert(rows[i] == a[i]);
        assert(a[i] == machine_row(builtin_plugins::features()[i], switches, locale));
    } else if i < n + s.len() {
        assert(rows[i] == s[i - n]);
    } else if i < n + s.len() + g.len() {
        assert(rows[i] == g[i - n - s.len()]);
    } else if i < n + s.len() + g.len() + b.len() {
        assert(rows[i] == b[i - n - s.len() - g.len()]);
    } else if i < n + s.len() + g.len() + b.len() + c.len() {
        assert(rows[i] == c[i - n - s.len() - g.len() - b.len()]);
    } else {
        assert(rows[i] == d[i - n - s.len() - g.len() - b.len() - c.len()]);
    }
}

/// The row of a plugin is ticked where the persona uses it, says whether the
/// machine has on what it needs, and has a row in the settings; a new user has
/// one where they are asked.
pub proof fn plugins_have_their_rows(
    manifest: &PersonaManifest,
    sources: &FeatureSources,
    default_persona: bool,
    scope: CatalogScope,
    config: Option<&AppConfig>,
    locale: Locale,
    items: Vec<FeatureItem>,
    list: Vec<BuiltinPluginDescriptor>,
    used: bool,
    i: int,
)
    requires
        call_ensures(catalog, (manifest, sources, default_persona, scope, config, locale), items),
        call_ensures(builtin_plugins, (), list),
        0 <= i < list@.len(),
        call_ensures(PersonaManifest::plugin_enabled, (manifest, list@[i].id), used),
        scope == CatalogScope::Settings || list@[i].toggleable,
    ensures
        exists|k: int|
            0 <= k < items@.len() && is_row_of(#[trigger] items@[k], list@[i], used, config, locale),
{
    let rows = rows_of(items@);
    let view = manifest@;
    let switches = switches_of(config);
    let first = machine_rows(scope, switches, locale) + subsystem_rows(view, *sources, scope, locale);
    let g = plugin_rows(view, scope, switches, locale);
    let last = script_rows(view, sources.scripts@, default_persona) + skill_rows(
        view,
        sources.skills@,
        default_persona,
    ) + mcp_rows(view, sources.mcp_servers@, default_persona);
    assert(rows =~= first + g + last);
    let all = builtin_plugins::plugins();
    assert(list@ == all);
    let keep = |plugin: BuiltinPluginDescriptor| lists_plugin(plugin, scope);
    assert(keep(all[i]));
    crate::table::lemma_chosen_place(all, keep, i);
    let at = crate::table::count(all, keep, i);
    assert(g[at] == plugin_row(all[i], view, switches, locale));
    let k = first.len() + at;
    assert(rows[k] == g[at]);
    assert(items@[k]@ == rows[k]);
    assert(is_row_of(items@[k], list@[i], used, config, locale));
}

/// Whether a row is that of a plugin.
pub open spec fn is_row_of(
    row: FeatureItem,
    plugin: BuiltinPluginDescriptor,
    used: bool,
    config: Option<&AppConfig>,
    locale: Locale,
) -> bool {
    &&& row.kind == FeatureKind::Plugin
    &&& row.id@ == plugin.id@
    &&& row.name@ == i18n::wording(locale, plugin.name_en, plugin.name_zh)@
    &&& row.hint@ == i18n::wording(locale, plugin.hint_en, plugin.hint_zh)@
    &&& row.on == used
    &&& !row.builtin
    &&& row.settings == plugin.settings
    &&& row.machine_on is None <==> config is None
    &&& (config matches Some(config) ==> row.machine_on == Some(
        match plugin.switch {
            None => true,
            Some(MachineSwitch::Web) => config.switches.web,
            Some(MachineSwitch::Vision) => config.switches.vision,
            Some(MachineSwitch::Skills) => config.switches.skills,
            Some(MachineSwitch::Mcp) => config.switches.mcp,
            Some(MachineSwitch::Memes) => config.switches.memes,
            Some(MachineSwitch::ImageGeneration) => config.switches.image_generation,
        },
    ))
}

/// A new user has a row for the plugins they are asked about alone.
pub proof fn new_users_are_not_asked_more(
    manifest: &PersonaManifest,
    sources: &FeatureSources,
    default_persona: bool,
    config: Option<&AppConfig>,
    locale: Locale,
    items: Vec<FeatureItem>,
    list: Vec<BuiltinPluginDescriptor>,
    k: int,
)
    requires
        call_ensures(
            catalog,
            (manifest, sources, default_persona, CatalogScope::Onboarding, config, locale),
            items,
        ),
        call_ensures(builtin_plugins, (), list),
        0 <= k < items@.len(),
        items@[k].kind == FeatureKind::Plugin,
    ensures
        exists|i: int|
            0 <= i < list@.len() && (#[trigger] list@[i]).toggleable && list@[i].id@
                == items@[k].id@,
{
    let rows = rows_of(items@);
    let view = manifest@;
    let scope = CatalogScope::Onboarding;
    let switches = switches_of(config);
    let s = subsystem_rows(view, *sources, scope, locale);
    let g = plugin_rows(view, scope, switches, locale);
    let b = script_rows(view, sources.scripts@, default_persona);
    let c = skill_rows(view, sources.skills@, default_persona);
    let d = mcp_rows(view, sources.mcp_servers@, default_persona);
    assert(rows =~= s + g + b + c + d);
    assert(items@[k]@ == rows[k]);
    if k < s.len() {
        assert(rows[k] == s[k]);
    } else if k < s.len() + g.len() {
        let at = k - s.len();
        assert(rows[k] == g[at]);
        let all = builtin_plugins::plugins();
        let keep = |plugin: BuiltinPluginDescriptor| lists_plugin(plugin, scope);
        let chosen = all.filter(keep);
        assert(chosen.contains(chosen[at]));
        all.lemma_filter_contains_rev(keep, chosen[at]);
        let i = choose|i: int| 0 <= i < all.len() && all[i] == chosen[at];
        assert(keep(chosen[at])) by {
            broadcast use vstd::seq_lib::group_filter_ensures;

        }
        assert(list@[i].toggleable);
    } else if k < s.len() + g.len() + b.len() {
        assert(rows[k] == b[k - s.len() - g.len()]);
    } else if k < s.len() + g.len() + b.len() + c.len() {
        assert(rows[k] == c[k - s.len() - g.len() - b.len()]);
    } else {
        assert(rows[k] == d[k - s.len() - g.len() - b.len() - c.len()]);
    }
}

/// A subsystem has a row, ticked as the persona has it, where the machine has
/// it and, for a new user, they are asked about it; and only there.
pub proof fn subsystems_have_their_rows(
    manifest: &PersonaManifest,
    sources: &FeatureSources,
    default_persona: bool,
    scope: CatalogScope,
    config: Option<&AppConfig>,
    locale: Locale,
    items: Vec<FeatureItem>,
    flag: SubsystemFlag,
)
    requires
        call_ensures(catalog, (manifest, sources, default_persona, scope, config, locale), items),
    ensures
        ({
            let listed = match flag {
                SubsystemFlag::Voice => sources.voice_available,
                SubsystemFlag::PersonaReminder => sources.persona_reminder_available,
                SubsystemFlag::Emotion => sources.emotion_available,
                SubsystemFlag::Memory => scope == CatalogScope::Settings,
            };
            let on = match flag {
                SubsystemFlag::Voice => manifest.subsystems.voice,
                SubsystemFlag::PersonaReminder => manifest.subsystems.persona_reminder,
                SubsystemFlag::Emotion => manifest.subsystems.emotion,
                SubsystemFlag::Memory => manifest.subsystems.memory,
            };
            &&& listed ==> exists|k: int|
                0 <= k < items@.len() && is_subsystem_row(#[trigger] items@[k], flag) && items@[k].on
                    == on
            &&& !listed ==> forall|k: int|
                0 <= k < items@.len() ==> !is_subsystem_row(#[trigger] items@[k], flag)
        }),
{
    let rows = rows_of(items@);
    let view = manifest@;
    let switches = switches_of(config);
    let a = machine_rows(scope, switches, locale);
    let s = subsystem_rows(view, *sources, scope, locale);
    let g = plugin_rows(view, scope, switches, locale);
    let b = script_rows(view, sources.scripts@, default_persona);
    let c = skill_rows(view, sources.skills@, default_persona);
    let d = mcp_rows(view, sources.mcp_servers@, default_persona);
    assert(rows == a + s + g + b + c + d);
    let n = a.len() as int;
    let all = SUBSYSTEMS@;
    let keep = |flag: SubsystemFlag| lists_subsystem(flag, *sources, scope);
    if lists_subsystem(flag, *sources, scope) {
        assert(all[0] == SubsystemFlag::Voice && all[1] == SubsystemFlag::PersonaReminder && all[2]
            == SubsystemFlag::Emotion && all[3] == SubsystemFlag::Memory);
        let i: int = match flag {
            SubsystemFlag::Voice => 0,
            SubsystemFlag::PersonaReminder => 1,
            SubsystemFlag::Emotion => 2,
            SubsystemFlag::Memory => 3,
        };
        assert(all[i] == flag);
        assert(keep(all[i]));
        crate::table::lemma_chosen_place(all, keep, i);
        let at = crate::table::count(all, keep, i);
        assert(s[at] == subsystem_row(flag, view, locale));
        assert(rows[n + at] == s[at]);
        assert(items@[n + at]@ == rows[n + at]);
        assert(is_subsystem_row(items@[n + at], flag));
    } else {
        assert forall|k: int| 0 <= k < items@.len() implies !is_subsystem_row(
            #[trigger] items@[k],
            flag,
        ) by {
            assert(items@[k]@ == rows[k]);
            if k < n {
                assert(rows[k] == a[k]);
            } else if k < n + s.len() {
                let at = k - n;
                assert(rows[k] == s[at]);
                let chosen = all.filter(keep);
                assert(chosen.contains(chosen[at]));
                assert(keep(chosen[at])) by {
                    broadcast use vstd::seq_lib::group_filter_ensures;

                }
                if is_subsystem_row(items@[k], flag) {
                    lemma_subsystem_ids(chosen[at], flag);
                }
            } else if k < n + s.len() + g.len() {
                assert(rows[k] == g[k - n - s.len()]);
            } else if k < n + s.len() + g.len() + b.len() {
                assert(rows[k] == b[k - n - s.len() - g.len()]);
            } else if k < n + s.len() + g.len() + b.len() + c.len() {
                assert(rows[k] == c[k - n - s.len() - g.len() - b.len()]);
            } else {
                assert(rows[k] == d[k - n - s.len() - g.len() - b.len() - c.len()]);
            }
        }
    }
}

/// Whether a row is that of a subsystem.
pub open spec fn is_subsystem_row(row: FeatureItem, flag: SubsystemFlag) -> bool {
    row.kind == FeatureKind::Subsystem && row.id@ == (match flag {
        SubsystemFlag::Voice => "voice"@,
        SubsystemFlag::PersonaReminder => "persona_reminder"@,
        SubsystemFlag::Emotion => "emotion"@,
        SubsystemFlag::Memory => "memory"@,
    })
}

/// Whether a row with a kind and an id is ticked.
pub open spec fn is_picked(items: Seq<FeatureItem>, kind: FeatureKind, id: Seq<char>) -> bool {
    exists|i: int|
        0 <= i < items.len() && (#[trigger] items[i]).on && items[i].kind == kind && items[i].id@
            == id
}

/// Ticking the web or vision, memes, pictures, servers or skills turns them on
/// for the machine. Nothing else turns anything on, and nothing is turned off.
pub proof fn ticks_turn_the_machine_on(
    before: AppConfig,
    items: Seq<FeatureItem>,
    after: AppConfig,
)
    requires
        are_opened(before, items, after),
    ensures
        after.switches.web == (before.switches.web || is_picked(
            items,
            FeatureKind::Machine,
            "web"@,
        )),
        after.switches.vision == (before.switches.vision || is_picked(
            items,
            FeatureKind::Machine,
            "vision"@,
        )),
        after.switches.memes == (before.switches.memes || is_picked(
            items,
            FeatureKind::Plugin,
            "memes"@,
        )),
        after.switches.image_generation == (before.switches.image_generation || is_picked(
            items,
            FeatureKind::Plugin,
            "image_generation"@,
        )),
        after.switches.mcp == (before.switches.mcp || is_picked(items, FeatureKind::Plugin, "mcp"@)),
        after.switches.skills == (before.switches.skills || is_picked(
            items,
            FeatureKind::Plugin,
            "skills"@,
        )),
        after.switches.memory == before.switches.memory,
        after.providers == before.providers,
        after.active_provider_models == before.active_provider_models,
        after.active_multimodal_provider_models == before.active_multimodal_provider_models,
        after.qq == before.qq,
{
    lemma_picked(items, FeatureKind::Machine, "web"@, MachineSwitch::Web);
    lemma_picked(items, FeatureKind::Machine, "vision"@, MachineSwitch::Vision);
    lemma_picked(items, FeatureKind::Plugin, "memes"@, MachineSwitch::Memes);
    lemma_picked(items, FeatureKind::Plugin, "image_generation"@, MachineSwitch::ImageGeneration);
    lemma_picked(items, FeatureKind::Plugin, "mcp"@, MachineSwitch::Mcp);
    lemma_picked(items, FeatureKind::Plugin, "skills"@, MachineSwitch::Skills);
    assert(builtin_plugins::is_on(MachineSwitch::Web, after.switches) == after.switches.web);
    assert(builtin_plugins::is_on(MachineSwitch::Vision, after.switches) == after.switches.vision);
    assert(builtin_plugins::is_on(MachineSwitch::Memes, after.switches) == after.switches.memes);
    assert(builtin_plugins::is_on(MachineSwitch::ImageGeneration, after.switches)
        == after.switches.image_generation);
    assert(builtin_plugins::is_on(MachineSwitch::Mcp, after.switches) == after.switches.mcp);
    assert(builtin_plugins::is_on(MachineSwitch::Skills, after.switches) == after.switches.skills);
}

proof fn lemma_picked(
    items: Seq<FeatureItem>,
    kind: FeatureKind,
    id: Seq<char>,
    switch: MachineSwitch,
)
    requires
        ({
            ||| kind == FeatureKind::Machine && id == "web"@ && switch == MachineSwitch::Web
            ||| kind == FeatureKind::Machine && id == "vision"@ && switch == MachineSwitch::Vision
            ||| kind == FeatureKind::Plugin && id == "memes"@ && switch == MachineSwitch::Memes
            ||| kind == FeatureKind::Plugin && id == "image_generation"@ && switch
                == MachineSwitch::ImageGeneration
            ||| kind == FeatureKind::Plugin && id == "mcp"@ && switch == MachineSwitch::Mcp
            ||| kind == FeatureKind::Plugin && id == "skills"@ && switch == MachineSwitch::Skills
        }),
    ensures
        opens(items, switch) == is_picked(items, kind, id),
{
    assert forall|i: int| 0 <= i < items.len() implies (row_switch(
        (#[trigger] items[i]).kind,
        items[i].id@,
    ) == Some(switch)) == (items[i].kind == kind && items[i].id@ == id) by {
        lemma_row_switch(items[i].kind, items[i].id@);
    }
    if opens(items, switch) {
        let i = choose|i: int|
            0 <= i < items.len() && (#[trigger] items[i]).on && row_switch(
                items[i].kind,
                items[i].id@,
            ) == Some(switch);
        assert(items[i].on);
    }
    if is_picked(items, kind, id) {
        let i = choose|i: int|
            0 <= i < items.len() && (#[trigger] items[i]).on && items[i].kind == kind
                && items[i].id@ == id;
        assert(items[i].on);
    }
}

proof fn lemma_row_switch(kind: FeatureKind, id: Seq<char>)
    ensures
        row_switch(kind, id) == (match kind {
            FeatureKind::Machine => if id == "web"@ {
                Some(MachineSwitch::Web)
            } else if id == "vision"@ {
                Some(MachineSwitch::Vision)
            } else {
                None
            },
            FeatureKind::Plugin => if id == "memes"@ {
                Some(MachineSwitch::Memes)
            } else if id == "image_generation"@ {
                Some(MachineSwitch::ImageGeneration)
            } else if id == "mcp"@ {
                Some(MachineSwitch::Mcp)
            } else if id == "skills"@ {
                Some(MachineSwitch::Skills)
            } else {
                None
            },
            _ => None,
        }),
        "web"@ != "vision"@,
        "memes"@ != "image_generation"@ && "memes"@ != "mcp"@ && "memes"@ != "skills"@
            && "image_generation"@ != "mcp"@ && "image_generation"@ != "skills"@ && "mcp"@
            != "skills"@,
{
    reveal_strlit("web");
    reveal_strlit("vision");
    reveal_strlit("alarm");
    reveal_strlit("archlinux");
    reveal_strlit("memes");
    reveal_strlit("image_generation");
    reveal_strlit("ledger");
    reveal_strlit("files");
    reveal_strlit("knowledge_base");
    reveal_strlit("mcp");
    reveal_strlit("scripts");
    reveal_strlit("skills");
    reveal_strlit("platform_outreach");
    assert("web"@.len() == 3 && "vision"@.len() == 6);
    assert("memes"@.len() == 5 && "memes"@[0] == 'm');
    assert("alarm"@.len() == 5 && "alarm"@[0] == 'a');
    assert("files"@.len() == 5 && "files"@[0] == 'f');
    assert("skills"@.len() == 6 && "skills"@[0] == 's');
    assert("ledger"@.len() == 6 && "ledger"@[0] == 'l');
    assert("archlinux"@.len() == 9 && "image_generation"@.len() == 16 && "knowledge_base"@.len() == 14
        && "mcp"@.len() == 3 && "scripts"@.len() == 7 && "platform_outreach"@.len() == 17);
    reveal_with_fuel(builtin_plugins::plugin_at, 12);
    reveal_with_fuel(builtin_plugins::feature_at, 3);
}

/// Applying a table sets each subsystem as its last row is ticked, and leaves
/// one that has no row.
pub proof fn the_last_tick_of_a_subsystem_counts(
    manifest: ManifestView,
    rows: Seq<ItemView>,
    default_persona: bool,
    flag: SubsystemFlag,
    i: int,
)
    requires
        -1 <= i < rows.len(),
        i >= 0 ==> rows[i].kind == FeatureKind::Subsystem && rows[i].id == subsystem_id(flag),
        forall|k: int|
            i < k < rows.len() ==> !((#[trigger] rows[k]).kind == FeatureKind::Subsystem && rows[k].id
                == subsystem_id(flag)),
    ensures
        ({
            let before = manifest.subsystems;
            let after = selected(manifest, rows, default_persona).subsystems;
            match flag {
                SubsystemFlag::Voice => after.voice == if i >= 0 {
                    rows[i].on
                } else {
                    before.voice
                },
                SubsystemFlag::PersonaReminder => after.persona_reminder == if i >= 0 {
                    rows[i].on
                } else {
                    before.persona_reminder
                },
                SubsystemFlag::Emotion => after.emotion == if i >= 0 {
                    rows[i].on
                } else {
                    before.emotion
                },
                SubsystemFlag::Memory => after.memory == if i >= 0 {
                    rows[i].on
                } else {
                    before.memory
                },
            }
        }),
{
    lemma_tick_at(rows, subsystem_id(flag), i, rows.len() as int);
}

/// The id that a subsystem is listed under.
pub open spec fn subsystem_id(flag: SubsystemFlag) -> Seq<char> {
    match flag {
        SubsystemFlag::Voice => "voice"@,
        SubsystemFlag::PersonaReminder => "persona_reminder"@,
        SubsystemFlag::Emotion => "emotion"@,
        SubsystemFlag::Memory => "memory"@,
    }
}

proof fn lemma_tick_at(rows: Seq<ItemView>, id: Seq<char>, i: int, n: int)
    requires
        -1 <= i < n <= rows.len() || i == -1 && n == 0,
        i >= 0 ==> rows[i].kind == FeatureKind::Subsystem && rows[i].id == id,
        forall|k: int|
            i < k < n ==> !((#[trigger] rows[k]).kind == FeatureKind::Subsystem && rows[k].id == id),
    ensures
        last_tick(rows, id, n) == (if i >= 0 {
            Some(rows[i].on)
        } else {
            None
        }),
    decreases n,
{
    if n > 0 && i < n - 1 {
        assert(!(rows[n - 1].kind == FeatureKind::Subsystem && rows[n - 1].id == id));
        lemma_tick_at(rows, id, i, n - 1);
    }
}

/// Where every plugin is ticked none is chosen, so that all are used. Otherwise
/// all there are stay in their order but those whose first row is not ticked.
pub proof fn plugins_left_out_are_not_used(
    manifest: ManifestView,
    rows: Seq<ItemView>,
    default_persona: bool,
)
    ensures
        ({
            let after = selected(manifest, rows, default_persona).enabled;
            &&& after is None <==> forall|i: int|
                0 <= i < rows.len() && (#[trigger] rows[i]).kind == FeatureKind::Plugin
                    ==> rows[i].on
            &&& after matches Some(list) ==> crate::table::is_rest(
                PLUGIN_IDS@.map_values(|id: &'static str| id@),
                list,
                |id: Seq<char>| is_left_out(rows, id),
            )
        }),
{
    let after = selected(manifest, rows, default_persona).enabled;
    if let Some(list) = after {
        let all = all_plugin_ids();
        let chosen = |id: Seq<char>| first_tick(rows, id, 0) != Some(false);
        let gone = |id: Seq<char>| is_left_out(rows, id);
        assert forall|i: int| 0 <= i < all.len() implies chosen(#[trigger] all[i]) == !gone(
            all[i],
        ) by {
            lemma_left_out(rows, all[i], 0);
        }
        crate::table::lemma_chosen_rest(all, chosen, gone);
        assert(list == all.filter(chosen));
    }
}

/// Whether the first row of a plugin is not ticked.
pub open spec fn is_left_out(rows: Seq<ItemView>, id: Seq<char>) -> bool {
    is_left_out_from(rows, id, 0)
}

/// Whether the first row of a plugin, from `from` on, is not ticked.
pub open spec fn is_left_out_from(rows: Seq<ItemView>, id: Seq<char>, from: int) -> bool {
    exists|i: int| #[trigger] is_first(rows, id, from, i) && !rows[i].on
}

/// Whether the first row of a plugin, from `from` on, is this one.
pub open spec fn is_first(rows: Seq<ItemView>, id: Seq<char>, from: int, i: int) -> bool {
    &&& from <= i < rows.len()
    &&& is_of_plugin(rows[i], id)
    &&& forall|k: int| from <= k < i ==> !#[trigger] is_of_plugin(rows[k], id)
}

/// Whether a row is one of a plugin.
pub open spec fn is_of_plugin(row: ItemView, id: Seq<char>) -> bool {
    row.kind == FeatureKind::Plugin && row.id == id
}

proof fn lemma_left_out(rows: Seq<ItemView>, id: Seq<char>, from: int)
    requires
        0 <= from <= rows.len(),
    ensures
        (first_tick(rows, id, from) == Some(false)) == is_left_out_from(rows, id, from),
    decreases rows.len() - from,
{
    if from < rows.len() {
        if is_of_plugin(rows[from], id) {
            assert(is_first(rows, id, from, from));
            if is_left_out_from(rows, id, from) {
                let i = choose|i: int| #[trigger] is_first(rows, id, from, i) && !rows[i].on;
                if i > from {
                    assert(!is_of_plugin(rows[from], id));
                }
            }
        } else {
            lemma_left_out(rows, id, from + 1);
            if is_left_out_from(rows, id, from + 1) {
                let i = choose|i: int| #[trigger] is_first(rows, id, from + 1, i) && !rows[i].on;
                assert(is_first(rows, id, from, i));
            }
            if is_left_out_from(rows, id, from) {
                let i = choose|i: int| #[trigger] is_first(rows, id, from, i) && !rows[i].on;
                assert(is_first(rows, id, from + 1, i));
            }
        }
    }
}

/// Scripts and skills need no list where exactly those are ticked that are used
/// without one. Otherwise the list has the ids of the rows that are ticked, in
/// order. So it is with servers, whose list stays where none has a row.
pub proof fn the_list_has_what_is_ticked(
    manifest: ManifestView,
    rows: Seq<ItemView>,
    default_persona: bool,
)
    ensures
        ({
            let after = selected(manifest, rows, default_persona);
            &&& lists_ticks(rows, FeatureKind::Script, default_persona, after.scripts)
            &&& lists_ticks(rows, FeatureKind::Skill, default_persona, after.skills)
            &&& (exists|i: int| 0 <= i < rows.len() && (#[trigger] rows[i]).kind == FeatureKind::Mcp)
                ==> lists_ticks(rows, FeatureKind::Mcp, default_persona, after.mcp)
            &&& !(exists|i: int| 0 <= i < rows.len() && (#[trigger] rows[i]).kind == FeatureKind::Mcp)
                ==> after.mcp == manifest.mcp
        }),
{
    lemma_lists_ticks(rows, FeatureKind::Script, default_persona);
    lemma_lists_ticks(rows, FeatureKind::Skill, default_persona);
    lemma_lists_ticks(rows, FeatureKind::Mcp, default_persona);
}

/// Whether a list is missing where the rows of a kind are ticked as they are
/// without one, and has the ids of those that are ticked otherwise.
pub open spec fn lists_ticks(
    rows: Seq<ItemView>,
    kind: FeatureKind,
    default_persona: bool,
    list: Option<Seq<Seq<char>>>,
) -> bool {
    let keep = |row: ItemView| row.kind == kind && row.on;
    &&& list is None <==> forall|i: int|
        0 <= i < rows.len() && (#[trigger] rows[i]).kind == kind ==> rows[i].on == (default_persona
            || !rows[i].builtin)
    &&& list matches Some(ids) ==> ids.len() == crate::table::count(rows, keep, rows.len() as int)
        && forall|i: int|
        0 <= i < rows.len() && (#[trigger] rows[i]).kind == kind && rows[i].on
            ==> ids[crate::table::count(rows, keep, i)] == rows[i].id
}

proof fn lemma_lists_ticks(rows: Seq<ItemView>, kind: FeatureKind, default_persona: bool)
    ensures
        lists_ticks(rows, kind, default_persona, allowed(rows, kind, default_persona)),
{
    let keep = |row: ItemView| row.kind == kind && row.on;
    let ids = ticked_ids(rows, kind);
    assert(ids == rows.filter(keep).map_values(|row: ItemView| row.id));
    crate::table::lemma_count(rows, keep, rows.len() as int);
    assert forall|i: int|
        0 <= i < rows.len() && (#[trigger] rows[i]).kind == kind && rows[i].on implies ids[
    crate::table::count(rows, keep, i)] == rows[i].id by {
        assert(keep(rows[i]));
        crate::table::lemma_chosen_place(rows, keep, i);
    }
}

} // verus!
