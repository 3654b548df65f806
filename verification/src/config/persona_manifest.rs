//! What a persona uses: which subsystems, and which plugins.
//!
//! Skills were once a subsystem and are a plugin now. A file that still says
//! whether that subsystem is on is read so that skills stay as they were, and
//! is written without it.

use vstd::prelude::*;

use crate::config::app_config::AppConfig;
use crate::config::builtin_plugins::{self, holds_id, PLUGIN_IDS};
use crate::json::{self, read_json, read_text_list, JsonShape, JsonView};
use crate::table;
use crate::text::{self, is_listed, join, joined, same_text, trimmed};
use crate::toml_doc::{self, toml_as_json, write_toml};

verus! {

/// The name of the file.
pub const PERSONA_MANIFEST_FILE: &'static str = "persona.toml";

/// The persona that uses nothing but what is always there.
pub const DEV_PERSONA: &'static str = "dev";

/// The plugin that skills are.
pub const SKILLS_PLUGIN: &'static str = "skills";

/// Plugins that are gone. Files may still name them.
pub const RETIRED_PLUGIN_IDS: [&'static str; 4] = [
    "deep_research",
    "diagnostics",
    "package_advisor",
    "api_quota",
];

/// Which subsystems are used.
#[derive(Debug, Clone, Copy, PartialEq, Eq, Structural)]
pub struct Subsystems {
    pub memory: bool,
    pub persona_reminder: bool,
    pub voice: bool,
    pub emotion: bool,
}

impl Subsystems {
    /// All of them.
    pub fn all() -> (subsystems: Self)
        ensures
            subsystems == (Subsystems {
                memory: true,
                persona_reminder: true,
                voice: true,
                emotion: true,
            }),
    {
        Subsystems { memory: true, persona_reminder: true, voice: true, emotion: true }
    }
}

/// Which plugins are used. A list that is missing stands for all.
#[derive(Debug, PartialEq, Eq)]
pub struct PluginSelection {
    pub enabled: Option<Vec<String>>,
    pub scripts: Option<Vec<String>>,
    pub skills: Option<Vec<String>>,
    pub mcp: Option<Vec<String>>,
}

/// What a persona uses.
#[derive(Debug, PartialEq, Eq)]
pub struct PersonaManifest {
    pub subsystems: Subsystems,
    pub plugins: PluginSelection,
}

/// What a [`PersonaManifest`] holds.
#[verifier::ext_equal]
pub struct ManifestView {
    pub subsystems: Subsystems,
    pub enabled: Option<Seq<Seq<char>>>,
    pub scripts: Option<Seq<Seq<char>>>,
    pub skills: Option<Seq<Seq<char>>>,
    pub mcp: Option<Seq<Seq<char>>>,
}

impl View for PersonaManifest {
    type V = ManifestView;

    open spec fn view(&self) -> ManifestView {
        ManifestView {
            subsystems: self.subsystems,
            enabled: json::opt_texts(self.plugins.enabled),
            scripts: json::opt_texts(self.plugins.scripts),
            skills: json::opt_texts(self.plugins.skills),
            mcp: json::opt_texts(self.plugins.mcp),
        }
    }
}

/// A manifest as a file has it, with the switch that skills once had.
#[derive(Debug)]
pub struct PersonaManifestWire {
    pub memory: Option<bool>,
    pub skills_switch: Option<bool>,
    pub persona_reminder: Option<bool>,
    pub voice: Option<bool>,
    pub emotion: Option<bool>,
    pub plugins: PluginSelection,
}

/// What a [`PersonaManifestWire`] holds.
#[verifier::ext_equal]
pub struct WireView {
    pub memory: Option<bool>,
    pub skills_switch: Option<bool>,
    pub persona_reminder: Option<bool>,
    pub voice: Option<bool>,
    pub emotion: Option<bool>,
    pub enabled: Option<Seq<Seq<char>>>,
    pub scripts: Option<Seq<Seq<char>>>,
    pub skills: Option<Seq<Seq<char>>>,
    pub mcp: Option<Seq<Seq<char>>>,
}

impl View for PersonaManifestWire {
    type V = WireView;

    open spec fn view(&self) -> WireView {
        WireView {
            memory: self.memory,
            skills_switch: self.skills_switch,
            persona_reminder: self.persona_reminder,
            voice: self.voice,
            emotion: self.emotion,
            enabled: json::opt_texts(self.plugins.enabled),
            scripts: json::opt_texts(self.plugins.scripts),
            skills: json::opt_texts(self.plugins.skills),
            mcp: json::opt_texts(self.plugins.mcp),
        }
    }
}

/// What a missing flag stands for: on.
pub open spec fn on_or(flag: Option<bool>) -> bool {
    match flag {
        Some(on) => on,
        None => true,
    }
}

/// What a missing flag stands for: on.
fn or_on(flag: Option<bool>) -> (on: bool)
    ensures
        on == on_or(flag),
{
    match flag {
        Some(on) => on,
        None => true,
    }
}

/// The ids of all plugins but skills.
pub open spec fn ids_without_skills() -> Seq<Seq<char>> {
    without_skills(PLUGIN_IDS@.map_values(|id: &'static str| id@))
}

/// A list without the skills.
pub open spec fn without_skills(list: Seq<Seq<char>>) -> Seq<Seq<char>> {
    list.filter(|id: Seq<char>| id != SKILLS_PLUGIN@)
}

/// The plugins that are used, so that skills are as the switch they once had
/// says, where it says anything.
pub open spec fn folded(switch: Option<bool>, enabled: Option<Seq<Seq<char>>>) -> Option<
    Seq<Seq<char>>,
> {
    match (switch, enabled) {
        (Some(false), None) => Some(ids_without_skills()),
        (Some(false), Some(list)) => Some(without_skills(list)),
        (Some(true), Some(list)) => if list.contains(SKILLS_PLUGIN@) {
            Some(list)
        } else {
            Some(list.push(SKILLS_PLUGIN@))
        },
        _ => enabled,
    }
}

/// The manifest that a file holds.
pub open spec fn manifest_of(wire: WireView) -> ManifestView {
    ManifestView {
        subsystems: Subsystems {
            memory: on_or(wire.memory),
            persona_reminder: on_or(wire.persona_reminder),
            voice: on_or(wire.voice),
            emotion: on_or(wire.emotion),
        },
        enabled: folded(wire.skills_switch, wire.enabled),
        scripts: wire.scripts,
        skills: wire.skills,
        mcp: wire.mcp,
    }
}

/// Whether a list holds the skills.
fn has_skills(list: &Vec<String>) -> (r: bool)
    ensures
        r == json::texts(list@).contains(SKILLS_PLUGIN@),
{
    let r = is_listed(list, SKILLS_PLUGIN);
    proof {
        json::lemma_listed(list@, SKILLS_PLUGIN@);
    }
    r
}

/// A list without the skills.
fn drop_skills(list: &Vec<String>) -> (out: Vec<String>)
    ensures
        json::texts(out@) == without_skills(json::texts(list@)),
{
    let ghost all = json::texts(list@);
    let ghost keep = |id: Seq<char>| id != SKILLS_PLUGIN@;
    let mut out: Vec<String> = Vec::new();
    let mut i: usize = 0;
    proof {
        reveal(Seq::filter);
        assert(all.take(0).filter(keep) =~= Seq::empty());
        assert(json::texts(out@) =~= Seq::empty());
    }
    while i < list.len()
        invariant
            i <= list@.len(),
            all == json::texts(list@),
            keep == (|id: Seq<char>| id != SKILLS_PLUGIN@),
            json::texts(out@) =~= all.take(i as int).filter(keep),
        decreases list@.len() - i,
    {
        proof {
            table::lemma_filter_step(all, keep, i as int);
        }
        if !same_text(list[i].as_str(), SKILLS_PLUGIN) {
            let ghost before = out@;
            out.push(list[i].clone());
            assert(json::texts(out@) =~= json::texts(before).push(all[i as int]));
        }
        i += 1;
    }
    assert(all.take(all.len() as int) =~= all);
    out
}

/// The ids of all plugins.
fn all_ids() -> (out: Vec<String>)
    ensures
        json::texts(out@) == PLUGIN_IDS@.map_values(|id: &'static str| id@),
{
    let ids: [&'static str; 11] = PLUGIN_IDS;
    let ghost all = ids@.map_values(|id: &'static str| id@);
    let mut out: Vec<String> = Vec::new();
    let mut i: usize = 0;
    while i < 11
        invariant
            i <= 11,
            ids@.len() == 11,
            all == ids@.map_values(|id: &'static str| id@),
            json::texts(out@) =~= all.take(i as int),
        decreases 11 - i,
    {
        let ghost before = out@;
        out.push(ids[i].to_owned());
        assert(json::texts(out@) =~= json::texts(before).push(all[i as int]));
        assert(all.take(i as int).push(all[i as int]) =~= all.take(i + 1));
        i += 1;
    }
    assert(all.take(11) =~= all);
    out
}

impl PersonaManifestWire {
    /// The manifest that a file holds.
    pub fn into_manifest(self) -> (manifest: PersonaManifest)
        ensures
            manifest@ == manifest_of(self@),
    {
        let subsystems = Subsystems {
            memory: or_on(self.memory),
            persona_reminder: or_on(self.persona_reminder),
            voice: or_on(self.voice),
            emotion: or_on(self.emotion),
        };
        let PluginSelection { enabled, scripts, skills, mcp } = self.plugins;
        let enabled = match (self.skills_switch, enabled) {
            (Some(false), None) => Some(drop_skills(&all_ids())),
            (Some(false), Some(list)) => Some(drop_skills(&list)),
            (Some(true), Some(list)) => {
                if has_skills(&list) {
                    Some(list)
                } else {
                    let mut list = list;
                    let ghost before = list@;
                    list.push(SKILLS_PLUGIN.to_owned());
                    assert(json::texts(list@) =~= json::texts(before).push(SKILLS_PLUGIN@));
                    Some(list)
                }
            },
            (_, enabled) => enabled,
        };
        PersonaManifest {
            subsystems,
            plugins: PluginSelection { enabled, scripts, skills, mcp },
        }
    }
}

/// Why a file is no manifest.
#[derive(Debug, PartialEq, Eq)]
pub enum ManifestError {
    /// It is no TOML document, for the reason the TOML parser gives.
    NotToml(String),
    /// Something in it is not of the type it should be.
    WrongType,
    /// It names plugins that there are not.
    UnknownPlugins(Vec<String>),
}

/// A value of a table: that with the name `key`, or the one at `at` where the
/// table was written as a list of its values.
pub open spec fn value_of(table: JsonView, key: Seq<char>, at: nat) -> Option<Seq<char>> {
    match table {
        JsonView::List(items) => if at < items.len() {
            Some(items[at as int])
        } else {
            None
        },
        _ => json::member(table, key),
    }
}

/// The flag of a table, and none where it is no flag.
pub open spec fn flag_of(table: JsonView, key: Seq<char>, at: nat) -> Option<Option<bool>> {
    match value_of(table, key, at) {
        None => Some(None),
        Some(value) => match json::json_shape(value) {
            Some(JsonView::Bool(on)) => Some(Some(on)),
            _ => None,
        },
    }
}

/// The list of a table, and none where it is no list of texts.
pub open spec fn list_of(table: JsonView, key: Seq<char>, at: nat) -> Option<
    Option<Seq<Seq<char>>>,
> {
    match value_of(table, key, at) {
        None => Some(None),
        Some(value) => match json::text_list(value) {
            Some(list) => Some(Some(list)),
            None => None,
        },
    }
}

/// The table with a name, empty where there is none, and none where it is
/// neither a table nor the list of the values of one.
pub open spec fn table_of(doc: JsonView, key: Seq<char>) -> Option<JsonView> {
    match json::member(doc, key) {
        None => Some(JsonView::Object(Seq::empty())),
        Some(value) => match json::json_shape(value) {
            Some(JsonView::Object(fields)) => Some(JsonView::Object(fields)),
            Some(JsonView::List(items)) => Some(JsonView::List(items)),
            _ => None,
        },
    }
}

/// What a file holds, read as a manifest. `json` is the file as JSON text.
pub open spec fn wire_of(json: Seq<char>) -> Option<WireView> {
    match json::json_shape(json) {
        Some(JsonView::Object(fields)) => {
            let doc = JsonView::Object(fields);
            match (table_of(doc, "subsystems"@), table_of(doc, "plugins"@)) {
                (Some(subsystems), Some(plugins)) => match (
                    flag_of(subsystems, "memory"@, 0),
                    flag_of(subsystems, "skills"@, 1),
                    flag_of(subsystems, "persona_reminder"@, 2),
                    flag_of(subsystems, "voice"@, 3),
                    flag_of(subsystems, "emotion"@, 4),
                ) {
                    (
                        Some(memory),
                        Some(skills_switch),
                        Some(persona_reminder),
                        Some(voice),
                        Some(emotion),
                    ) => match (
                        list_of(plugins, "enabled"@, 0),
                        list_of(plugins, "scripts"@, 1),
                        list_of(plugins, "skills"@, 2),
                        list_of(plugins, "mcp"@, 3),
                    ) {
                        (Some(enabled), Some(scripts), Some(skills), Some(mcp)) => Some(
                            WireView {
                                memory,
                                skills_switch,
                                persona_reminder,
                                voice,
                                emotion,
                                enabled,
                                scripts,
                                skills,
                                mcp,
                            },
                        ),
                        _ => None,
                    },
                    _ => None,
                },
                _ => None,
            }
        },
        _ => None,
    }
}

/// A value of a table.
fn read_value(table: &JsonShape, key: &str, at: usize) -> (value: Option<String>)
    ensures
        json::opt_text(value) == value_of(table@, key@, at as nat),
{
    match table {
        JsonShape::List(items) => if at < items.len() {
            Some(items[at].clone())
        } else {
            None
        },
        _ => table.get(key),
    }
}

/// The flag of a table.
fn read_flag(table: &JsonShape, key: &str, at: usize) -> (flag: Option<Option<bool>>)
    ensures
        flag == flag_of(table@, key@, at as nat),
{
    match read_value(table, key, at) {
        None => Some(None),
        Some(value) => match read_json(value.as_str()) {
            Some(JsonShape::Bool(on)) => Some(Some(on)),
            _ => None,
        },
    }
}

/// What an optional list holds, where it could be read.
pub open spec fn read_texts(list: Option<Option<Vec<String>>>) -> Option<Option<Seq<Seq<char>>>> {
    match list {
        Some(list) => Some(json::opt_texts(list)),
        None => None,
    }
}

/// The list of a table.
fn read_list(table: &JsonShape, key: &str, at: usize) -> (list: Option<Option<Vec<String>>>)
    ensures
        read_texts(list) == list_of(table@, key@, at as nat),
{
    match read_value(table, key, at) {
        None => Some(None),
        Some(value) => match read_text_list(value.as_str()) {
            Some(list) => Some(Some(list)),
            None => None,
        },
    }
}

/// The table with a name.
fn read_table(doc: &JsonShape, key: &str) -> (table: Option<JsonShape>)
    ensures
        match (table, table_of(doc@, key@)) {
            (Some(a), Some(b)) => a@ == b,
            (None, None) => true,
            _ => false,
        },
{
    match doc.get(key) {
        None => {
            let none: Vec<(String, String)> = Vec::new();
            assert(json::text_pairs(none@) =~= Seq::empty());
            Some(JsonShape::Object(none))
        },
        Some(value) => match read_json(value.as_str()) {
            Some(JsonShape::Object(fields)) => Some(JsonShape::Object(fields)),
            Some(JsonShape::List(items)) => Some(JsonShape::List(items)),
            _ => None,
        },
    }
}

/// Reads a file as a manifest. `json` is the file as JSON text.
pub fn read_wire(json: &str) -> (wire: Option<PersonaManifestWire>)
    ensures
        match (wire, wire_of(json@)) {
            (Some(a), Some(b)) => a@ == b,
            (None, None) => true,
            _ => false,
        },
{
    let doc = match read_json(json) {
        Some(JsonShape::Object(fields)) => JsonShape::Object(fields),
        _ => {
            return None;
        },
    };
    let (subsystems, plugins) = match (read_table(&doc, "subsystems"), read_table(&doc, "plugins")) {
        (Some(subsystems), Some(plugins)) => (subsystems, plugins),
        _ => {
            return None;
        },
    };
    match (
        read_flag(&subsystems, "memory", 0),
        read_flag(&subsystems, "skills", 1),
        read_flag(&subsystems, "persona_reminder", 2),
        read_flag(&subsystems, "voice", 3),
        read_flag(&subsystems, "emotion", 4),
    ) {
        (
            Some(memory),
            Some(skills_switch),
            Some(persona_reminder),
            Some(voice),
            Some(emotion),
        ) => match (
            read_list(&plugins, "enabled", 0),
            read_list(&plugins, "scripts", 1),
            read_list(&plugins, "skills", 2),
            read_list(&plugins, "mcp", 3),
        ) {
            (Some(enabled), Some(scripts), Some(skills), Some(mcp)) => Some(
                PersonaManifestWire {
                    memory,
                    skills_switch,
                    persona_reminder,
                    voice,
                    emotion,
                    plugins: PluginSelection { enabled, scripts, skills, mcp },
                },
            ),
            _ => None,
        },
        _ => None,
    }
}

/// Whether a plugin is known, or was once.
pub open spec fn is_known(id: Seq<char>) -> bool {
    builtin_plugins::is_id(PLUGIN_IDS@, id) || builtin_plugins::is_id(RETIRED_PLUGIN_IDS@, id)
}

/// The plugins of a list that are not known.
pub open spec fn unknown_of(list: Seq<Seq<char>>) -> Seq<Seq<char>> {
    list.filter(|id: Seq<char>| !is_known(id))
}

/// The plugins a manifest names that are not known.
pub open spec fn unknown_in(manifest: ManifestView) -> Seq<Seq<char>> {
    match manifest.enabled {
        Some(list) => unknown_of(list),
        None => Seq::empty(),
    }
}

/// Whether an error names these plugins.
pub open spec fn names_unknown(error: ManifestError, ids: Seq<Seq<char>>) -> bool {
    error matches ManifestError::UnknownPlugins(list) && json::texts(list@) == ids
}

/// What is said of plugins that are not known.
pub open spec fn unknown_message(ids: Seq<Seq<char>>) -> Seq<char> {
    "unknown plugin id(s) in persona.toml: "@ + text::joined_by(ids, ", "@) + "; known: "@
        + text::joined_by(PLUGIN_IDS@.map_values(|id: &'static str| id@), ", "@)
}

impl ManifestError {
    /// What is said of the error.
    pub open spec fn said(self) -> Seq<char> {
        match self {
            ManifestError::NotToml(reason) => reason@,
            ManifestError::WrongType => "a value in persona.toml is not of the expected type"@,
            ManifestError::UnknownPlugins(list) => unknown_message(json::texts(list@)),
        }
    }

    /// What is said of the error.
    pub fn message(&self) -> (message: String)
        ensures
            message@ == self.said(),
    {
        match self {
            ManifestError::NotToml(reason) => reason.clone(),
            ManifestError::WrongType => {
                "a value in persona.toml is not of the expected type".to_owned()
            },
            ManifestError::UnknownPlugins(list) => {
                let known = all_ids();
                proof {
                    assert(text::views(list@) =~= json::texts(list@));
                    assert(text::views(list@).take(list@.len() as int) =~= json::texts(list@));
                    assert(text::views(known@) =~= json::texts(known@));
                    assert(text::views(known@).take(known@.len() as int) =~= json::texts(known@));
                }
                let mut message = "unknown plugin id(s) in persona.toml: ".to_owned();
                message.append(join(list, list.len(), ", ").as_str());
                message.append("; known: ");
                message.append(join(&known, known.len(), ", ").as_str());
                message
            },
        }
    }
}

/// Whether a plugin is used.
pub open spec fn uses(manifest: ManifestView, id: Seq<char>) -> bool {
    match manifest.enabled {
        None => true,
        Some(list) => list.contains(id),
    }
}

/// The manifest that uses everything.
pub open spec fn all_view() -> ManifestView {
    ManifestView {
        subsystems: Subsystems { memory: true, persona_reminder: true, voice: true, emotion: true },
        enabled: None,
        scripts: None,
        skills: None,
        mcp: None,
    }
}

/// The manifest that uses nothing but what is always there, and may send to
/// messaging platforms.
pub open spec fn core_view() -> ManifestView {
    ManifestView {
        subsystems: Subsystems {
            memory: false,
            persona_reminder: false,
            voice: false,
            emotion: false,
        },
        enabled: Some(seq!["platform_outreach"@]),
        scripts: None,
        skills: None,
        mcp: None,
    }
}

/// The manifest of a persona that has no file.
pub open spec fn builtin_view(persona: Seq<char>) -> ManifestView {
    if text::trim(persona) == DEV_PERSONA@ {
        core_view()
    } else {
        all_view()
    }
}

/// The manifest that a file holds, where it holds one. `json` is the file as
/// JSON text, if it is a TOML document.
pub open spec fn parsed(json: Option<Seq<char>>) -> Option<ManifestView> {
    match json {
        Some(json) => match wire_of(json) {
            Some(wire) => if unknown_in(manifest_of(wire)).len() == 0 {
                Some(manifest_of(wire))
            } else {
                None
            },
            None => None,
        },
        None => None,
    }
}

/// The list of a manifest under a name, where it has one.
pub open spec fn named_list(name: Seq<char>, list: Option<Seq<Seq<char>>>) -> Seq<
    (Seq<char>, Seq<Seq<char>>),
> {
    match list {
        Some(list) => seq![(name, list)],
        None => Seq::empty(),
    }
}

/// The lists of a manifest, as they are written.
pub open spec fn written_lists(manifest: ManifestView) -> Seq<(Seq<char>, Seq<Seq<char>>)> {
    named_list("enabled"@, manifest.enabled) + named_list("scripts"@, manifest.scripts)
        + named_list("skills"@, manifest.skills) + named_list("mcp"@, manifest.mcp)
}

/// The flags of a manifest, as they are written.
pub open spec fn written_flags(manifest: ManifestView) -> Seq<(Seq<char>, bool)> {
    seq![
        ("memory"@, manifest.subsystems.memory),
        ("persona_reminder"@, manifest.subsystems.persona_reminder),
        ("voice"@, manifest.subsystems.voice),
        ("emotion"@, manifest.subsystems.emotion),
    ]
}

/// A manifest as a file.
pub open spec fn file_of(manifest: ManifestView) -> Seq<char> {
    toml_doc::toml_written(
        "subsystems"@,
        written_flags(manifest),
        "plugins"@,
        written_lists(manifest),
    )
}

/// A copy of a list.
fn copy_list(list: &Vec<String>) -> (r: Vec<String>)
    ensures
        r@ == list@,
{
    let mut out: Vec<String> = Vec::new();
    let mut i: usize = 0;
    while i < list.len()
        invariant
            i <= list@.len(),
            out@ =~= list@.take(i as int),
        decreases list@.len() - i,
    {
        out.push(list[i].clone());
        i += 1;
    }
    out
}

/// Adds a list under a name, where there is one.
fn push_list(lists: &mut Vec<(String, Vec<String>)>, name: &str, list: &Option<Vec<String>>)
    ensures
        toml_doc::lists_view(final(lists)@) == toml_doc::lists_view(old(lists)@) + named_list(
            name@,
            json::opt_texts(*list),
        ),
{
    let ghost before = lists@;
    if let Some(list) = list {
        lists.push((name.to_owned(), copy_list(list)));
        assert(toml_doc::lists_view(lists@) =~= toml_doc::lists_view(before) + seq![
            (name@, json::texts(list@)),
        ]);
    } else {
        assert(toml_doc::lists_view(lists@) =~= toml_doc::lists_view(before) + Seq::empty());
    }
}

/// The names of flags and lists are different ones.
proof fn lemma_names()
    ensures
        "subsystems"@ != "plugins"@,
        "memory"@ != "persona_reminder"@,
        "memory"@ != "voice"@,
        "memory"@ != "emotion"@,
        "memory"@ != "skills"@,
        "persona_reminder"@ != "voice"@,
        "persona_reminder"@ != "emotion"@,
        "persona_reminder"@ != "skills"@,
        "voice"@ != "emotion"@,
        "voice"@ != "skills"@,
        "emotion"@ != "skills"@,
        "enabled"@ != "scripts"@,
        "enabled"@ != "skills"@,
        "enabled"@ != "mcp"@,
        "scripts"@ != "skills"@,
        "scripts"@ != "mcp"@,
        "skills"@ != "mcp"@,
{
    reveal_strlit("subsystems");
    reveal_strlit("plugins");
    reveal_strlit("memory");
    reveal_strlit("persona_reminder");
    reveal_strlit("voice");
    reveal_strlit("emotion");
    reveal_strlit("skills");
    reveal_strlit("enabled");
    reveal_strlit("scripts");
    reveal_strlit("mcp");
    assert("subsystems"@.len() == 10 && "plugins"@.len() == 7);
    assert("persona_reminder"@.len() == 16 && "voice"@.len() == 5);
    assert("memory"@.len() == 6 && "emotion"@.len() == 7);
    assert("enabled"@.len() == 7 && "mcp"@.len() == 3);
    assert("scripts"@.len() == 7 && "skills"@.len() == 6);
    assert("memory"@[0] != "skills"@[0]);
    assert("enabled"@[0] != "scripts"@[0]);
    assert("emotion"@[0] != "skills"@[0]);
    assert("scripts"@[1] != "skills"@[1]);
}

impl PersonaManifest {
    /// A persona that uses everything.
    pub fn all() -> (manifest: Self)
        ensures
            manifest@ == all_view(),
    {
        PersonaManifest {
            subsystems: Subsystems::all(),
            plugins: PluginSelection { enabled: None, scripts: None, skills: None, mcp: None },
        }
    }

    /// A persona that uses nothing but what is always there, and may send to
    /// messaging platforms.
    pub fn core_only() -> (manifest: Self)
        ensures
            manifest@ == core_view(),
    {
        let mut enabled: Vec<String> = Vec::new();
        enabled.push("platform_outreach".to_owned());
        assert(json::texts(enabled@) =~= seq!["platform_outreach"@]);
        PersonaManifest {
            subsystems: Subsystems {
                memory: false,
                persona_reminder: false,
                voice: false,
                emotion: false,
            },
            plugins: PluginSelection {
                enabled: Some(enabled),
                scripts: None,
                skills: None,
                mcp: None,
            },
        }
    }

    /// The manifest of a persona that has no file.
    pub fn builtin_for(persona: &str) -> (manifest: Self)
        ensures
            manifest@ == builtin_view(persona@),
    {
        if same_text(trimmed(persona).as_str(), DEV_PERSONA) {
            PersonaManifest::core_only()
        } else {
            PersonaManifest::all()
        }
    }

    /// Where the file of a persona is, in the directory of the persona.
    pub fn manifest_path(dir: &str) -> (path: String)
        ensures
            path@ == (if dir@.len() == 0 || dir@.last() == '/' {
                dir@
            } else {
                dir@ + "/"@
            }) + PERSONA_MANIFEST_FILE@,
    {
        let n: usize = dir.unicode_len();
        if n == 0 || dir.get_char(n - 1) == '/' {
            joined(dir, PERSONA_MANIFEST_FILE)
        } else {
            let base = joined(dir, "/");
            joined(base.as_str(), PERSONA_MANIFEST_FILE)
        }
    }

    /// The manifest of a persona with this file. One without a file, or with
    /// one that is no manifest, has that of its name.
    pub fn load(raw: Option<&str>, persona: &str) -> (manifest: Self)
        ensures
            manifest@ == match raw {
                Some(raw) => match parsed(toml_doc::toml_json(raw@)) {
                    Some(manifest) => manifest,
                    None => builtin_view(persona@),
                },
                None => builtin_view(persona@),
            },
    {
        match raw {
            Some(raw) => match PersonaManifest::parse(raw) {
                Ok(manifest) => manifest,
                Err(_) => PersonaManifest::builtin_for(persona),
            },
            None => PersonaManifest::builtin_for(persona),
        }
    }

    /// The manifest that a file holds.
    pub fn parse(raw: &str) -> (manifest: Result<Self, ManifestError>)
        ensures
            match manifest {
                Ok(manifest) => parsed(toml_doc::toml_json(raw@)) == Some(manifest@),
                Err(ManifestError::NotToml(reason)) => toml_doc::toml_read(raw@) == Err::<
                    Seq<char>,
                    Seq<char>,
                >(reason@),
                Err(ManifestError::WrongType) => match toml_doc::toml_json(raw@) {
                    Some(json) => wire_of(json) is None,
                    None => false,
                },
                Err(error) => match toml_doc::toml_json(raw@) {
                    Some(json) => match wire_of(json) {
                        Some(wire) => unknown_in(manifest_of(wire)).len() > 0 && names_unknown(
                            error,
                            unknown_in(manifest_of(wire)),
                        ),
                        None => false,
                    },
                    None => false,
                },
            },
    {
        match toml_as_json(raw) {
            Ok(json) => PersonaManifest::from_json(json.as_str()),
            Err(reason) => Err(ManifestError::NotToml(reason)),
        }
    }

    /// The manifest that a file holds. `json` is the file as JSON text.
    pub fn from_json(json: &str) -> (manifest: Result<Self, ManifestError>)
        ensures
            match manifest {
                Ok(manifest) => parsed(Some(json@)) == Some(manifest@),
                Err(ManifestError::WrongType) => wire_of(json@) is None,
                Err(error) => match wire_of(json@) {
                    Some(wire) => unknown_in(manifest_of(wire)).len() > 0 && names_unknown(
                        error,
                        unknown_in(manifest_of(wire)),
                    ),
                    None => false,
                },
            },
    {
        match read_wire(json) {
            Some(wire) => {
                let manifest = wire.into_manifest();
                match manifest.validate() {
                    Ok(()) => Ok(manifest),
                    Err(error) => Err(error),
                }
            },
            None => Err(ManifestError::WrongType),
        }
    }

    /// The manifest as a file.
    pub fn to_toml(&self) -> (file: String)
        requires
            toml_doc::writable(written_lists(self@)),
        ensures
            file@ == file_of(self@),
            parsed(toml_doc::toml_json(file@)) == (if unknown_in(self@).len() == 0 {
                Some(self@)
            } else {
                None
            }),
            toml_doc::toml_json(file@) matches Some(json) && wire_of(json) == Some(
                written_wire(self@),
            ),
    {
        let mut flags: Vec<(String, bool)> = Vec::new();
        flags.push(("memory".to_owned(), self.subsystems.memory));
        flags.push(("persona_reminder".to_owned(), self.subsystems.persona_reminder));
        flags.push(("voice".to_owned(), self.subsystems.voice));
        flags.push(("emotion".to_owned(), self.subsystems.emotion));
        let mut lists: Vec<(String, Vec<String>)> = Vec::new();
        proof {
            assert(toml_doc::lists_view(lists@) =~= Seq::empty());
        }
        push_list(&mut lists, "enabled", &self.plugins.enabled);
        push_list(&mut lists, "scripts", &self.plugins.scripts);
        push_list(&mut lists, "skills", &self.plugins.skills);
        push_list(&mut lists, "mcp", &self.plugins.mcp);
        proof {
            lemma_names();
            assert(toml_doc::flags_view(flags@) =~= written_flags(self@));
            assert(toml_doc::lists_view(lists@) =~= written_lists(self@));
            lemma_list_names(lists@, self@);
            assert forall|i: int, j: int| 0 <= i < j < flags@.len() implies (#[trigger] flags@[i]).0@
                != (#[trigger] flags@[j]).0@ by {}
        }
        let file = write_toml("subsystems", &flags, "plugins", &lists);
        proof {
            lemma_written_read(self@, toml_doc::toml_json(file@)->0);
        }
        file
    }

    /// Whether all plugins that are named are known. One that is gone may
    /// still be named.
    pub fn validate(&self) -> (done: Result<(), ManifestError>)
        ensures
            match done {
                Ok(()) => unknown_in(self@).len() == 0,
                Err(error) => unknown_in(self@).len() > 0 && names_unknown(error, unknown_in(self@)),
            },
    {
        let list = match &self.plugins.enabled {
            Some(list) => list,
            None => {
                return Ok(());
            },
        };
        let ghost all = json::texts(list@);
        let ghost keep = |id: Seq<char>| !is_known(id);
        let mut unknown: Vec<String> = Vec::new();
        let mut i: usize = 0;
        proof {
            reveal(Seq::filter);
            assert(all.take(0).filter(keep) =~= Seq::empty());
            assert(json::texts(unknown@) =~= Seq::empty());
        }
        while i < list.len()
            invariant
                i <= list@.len(),
                all == json::texts(list@),
                keep == (|id: Seq<char>| !is_known(id)),
                json::texts(unknown@) =~= all.take(i as int).filter(keep),
            decreases list@.len() - i,
        {
            proof {
                table::lemma_filter_step(all, keep, i as int);
            }
            let id = list[i].as_str();
            if !holds_id(&PLUGIN_IDS, id) && !holds_id(&RETIRED_PLUGIN_IDS, id) {
                let ghost before = unknown@;
                unknown.push(list[i].clone());
                assert(json::texts(unknown@) =~= json::texts(before).push(all[i as int]));
            }
            i += 1;
        }
        assert(all.take(all.len() as int) =~= all);
        if unknown.len() == 0 {
            Ok(())
        } else {
            Err(ManifestError::UnknownPlugins(unknown))
        }
    }

    /// Whether a plugin is used.
    pub fn plugin_enabled(&self, id: &str) -> (r: bool)
        ensures
            r == uses(self@, id@),
    {
        match &self.plugins.enabled {
            None => true,
            Some(list) => {
                proof {
                    json::lemma_listed(list@, id@);
                }
                is_listed(list, id)
            },
        }
    }

    /// Whether memory is used: the persona does, and it is on for the machine.
    pub fn memory_enabled(&self, config: &AppConfig) -> (r: bool)
        ensures
            r == (self.subsystems.memory && config.switches.memory),
    {
        self.subsystems.memory && config.switches.memory
    }

    /// Whether skills are used: the persona does, and they are on for the
    /// machine.
    pub fn skills_enabled(&self, config: &AppConfig) -> (r: bool)
        ensures
            r == (uses(self@, SKILLS_PLUGIN@) && config.switches.skills),
    {
        self.plugin_enabled(SKILLS_PLUGIN) && config.switches.skills
    }
}

/// The lists that are written have different names.
proof fn lemma_list_names(lists: Seq<(String, Vec<String>)>, manifest: ManifestView)
    requires
        toml_doc::lists_view(lists) == written_lists(manifest),
    ensures
        forall|i: int, j: int|
            0 <= i < j < lists.len() ==> (#[trigger] lists[i]).0@ != (#[trigger] lists[j]).0@,
{
    lemma_names();
    let held = toml_doc::lists_view(lists);
    let a = named_list("enabled"@, manifest.enabled);
    let b = named_list("scripts"@, manifest.scripts);
    let c = named_list("skills"@, manifest.skills);
    let d = named_list("mcp"@, manifest.mcp);
    assert forall|k: int| 0 <= k < held.len() implies (#[trigger] held[k]).0 == (if k < a.len() {
        "enabled"@
    } else if k < a.len() + b.len() {
        "scripts"@
    } else if k < a.len() + b.len() + c.len() {
        "skills"@
    } else {
        "mcp"@
    }) by {}
    assert forall|i: int, j: int| 0 <= i < j < lists.len() implies (#[trigger] lists[i]).0@ != (
    #[trigger] lists[j]).0@ by {
        assert(held[i].0 == lists[i].0@);
        assert(held[j].0 == lists[j].0@);
    }
}

/// Looking a list up among those that are written.
proof fn lemma_written_lists(manifest: ManifestView)
    ensures
        toml_doc::list_named(written_lists(manifest), "enabled"@) == manifest.enabled,
        toml_doc::list_named(written_lists(manifest), "scripts"@) == manifest.scripts,
        toml_doc::list_named(written_lists(manifest), "skills"@) == manifest.skills,
        toml_doc::list_named(written_lists(manifest), "mcp"@) == manifest.mcp,
{
    lemma_names();
    let a = named_list("enabled"@, manifest.enabled);
    let b = named_list("scripts"@, manifest.scripts);
    let c = named_list("skills"@, manifest.skills);
    let d = named_list("mcp"@, manifest.mcp);
    let all = written_lists(manifest);
    assert(all =~= a + (b + (c + d)));
    lemma_lookup(manifest.enabled, "enabled"@, b + (c + d));
    lemma_lookup(manifest.scripts, "scripts"@, c + d);
    lemma_lookup(manifest.skills, "skills"@, d);
    assert(d =~= d + Seq::empty());
    lemma_lookup(manifest.mcp, "mcp"@, Seq::empty());
    reveal_with_fuel(toml_doc::list_named, 2);
}

/// Looking a list up where one may stand first.
proof fn lemma_lookup(
    list: Option<Seq<Seq<char>>>,
    name: Seq<char>,
    rest: Seq<(Seq<char>, Seq<Seq<char>>)>,
)
    ensures
        forall|key: Seq<char>| #[trigger]
            toml_doc::list_named(named_list(name, list) + rest, key) == (if key == name && list is Some {
                list
            } else {
                toml_doc::list_named(rest, key)
            }),
{
    let all = named_list(name, list) + rest;
    match list {
        Some(items) => {
            assert(all[0] == (name, items));
            assert(all.skip(1) =~= rest);
        },
        None => {
            assert(all =~= rest);
        },
    }
}

/// What is written is read again.
proof fn lemma_written_read(manifest: ManifestView, json: Seq<char>)
    requires
        match json::json_shape(json) {
            Some(JsonView::Object(fields)) => match (
                json::named(fields, "subsystems"@),
                json::named(fields, "plugins"@),
            ) {
                (Some(a), Some(b)) => toml_doc::holds_flags(a, written_flags(manifest))
                    && toml_doc::holds_lists(b, written_lists(manifest)),
                _ => false,
            },
            _ => false,
        },
    ensures
        wire_of(json) == Some(written_wire(manifest)),
        manifest_of(written_wire(manifest)) == manifest,
{
    lemma_names();
    lemma_written_lists(manifest);
    let flags = written_flags(manifest);
    assert(flags.skip(1).skip(1) =~= flags.skip(2));
    assert(flags.skip(2).skip(1) =~= flags.skip(3));
    assert(flags.skip(3).skip(1) =~= Seq::empty());
    assert(flags.skip(1)[0] == flags[1]);
    assert(flags.skip(2)[0] == flags[2]);
    assert(flags.skip(3)[0] == flags[3]);
    reveal_with_fuel(toml_doc::flag_named, 5);
    assert(toml_doc::flag_named(flags, "memory"@) == Some(manifest.subsystems.memory));
    assert(toml_doc::flag_named(flags, "persona_reminder"@) == Some(
        manifest.subsystems.persona_reminder,
    ));
    assert(toml_doc::flag_named(flags, "voice"@) == Some(manifest.subsystems.voice));
    assert(toml_doc::flag_named(flags, "emotion"@) == Some(manifest.subsystems.emotion));
    assert(toml_doc::flag_named(flags, "skills"@) is None);
    assert(manifest_of(written_wire(manifest)) =~= manifest);
}

/// A manifest as a file has it that was just written: without the switch that
/// skills once had.
pub open spec fn written_wire(manifest: ManifestView) -> WireView {
    WireView {
        memory: Some(manifest.subsystems.memory),
        skills_switch: None,
        persona_reminder: Some(manifest.subsystems.persona_reminder),
        voice: Some(manifest.subsystems.voice),
        emotion: Some(manifest.subsystems.emotion),
        enabled: manifest.enabled,
        scripts: manifest.scripts,
        skills: manifest.skills,
        mcp: manifest.mcp,
    }
}

// ---------------------------------------------------------------------------
// Laws
// ---------------------------------------------------------------------------

/// A file that was read and is written again is read as the same manifest,
/// whether or not it had the switch that skills once had. What is written does
/// not have it.
pub proof fn what_was_read_is_written(read: Seq<char>, manifest: ManifestView, written: Seq<char>)
    requires
        parsed(Some(read)) == Some(manifest),
        wire_of(written) == Some(written_wire(manifest)),
    ensures
        parsed(Some(written)) == Some(manifest),
        wire_of(written) matches Some(wire) && wire.skills_switch is None,
{
    assert(manifest_of(written_wire(manifest)) =~= manifest);
}

/// Skills are used as the switch they once had says, where it says anything
/// and plugins are chosen or it is off.
pub proof fn skills_stay_as_they_were(switch: bool, enabled: Option<Seq<Seq<char>>>, manifest: ManifestView)
    requires
        manifest.enabled == folded(Some(switch), enabled),
    ensures
        uses(manifest, SKILLS_PLUGIN@) == switch,
{
    match manifest.enabled {
        Some(list) => {
            if !switch {
                if list.contains(SKILLS_PLUGIN@) {
                    let i = choose|i: int| 0 <= i < list.len() && list[i] == SKILLS_PLUGIN@;
                    let source = match enabled {
                        Some(given) => given,
                        None => PLUGIN_IDS@.map_values(|id: &'static str| id@),
                    };
                    source.lemma_filter_pred(|id: Seq<char>| id != SKILLS_PLUGIN@, i);
                }
            } else {
                match enabled {
                    Some(given) => {
                        if !given.contains(SKILLS_PLUGIN@) {
                            assert(list[given.len() as int] == SKILLS_PLUGIN@);
                        }
                    },
                    None => {},
                }
            }
        },
        None => {},
    }
}

/// Other plugins are used as they were, whatever the switch said.
pub proof fn other_plugins_stay(switch: Option<bool>, list: Seq<Seq<char>>, id: Seq<char>)
    requires
        id != SKILLS_PLUGIN@,
    ensures
        folded(switch, Some(list)) matches Some(after) && after.contains(id) == list.contains(id),
{
    let keep = |id: Seq<char>| id != SKILLS_PLUGIN@;
    let after = folded(switch, Some(list))->0;
    if list.contains(id) {
        let i = choose|i: int| 0 <= i < list.len() && list[i] == id;
        if switch == Some(false) {
            list.lemma_filter_contains(keep, i);
        } else if after != list {
            assert(after[i] == id);
        }
    }
    if after.contains(id) {
        if switch == Some(false) {
            list.lemma_filter_contains_rev(keep, id);
        } else if after != list {
            let i = choose|i: int| 0 <= i < after.len() && after[i] == id;
            assert(list[i] == id);
        }
    }
}

/// A subsystem is used unless the file says that it is not. The lists of
/// scripts, skills and servers are those of the file.
pub proof fn what_is_not_turned_off_is_on(wire: PersonaManifestWire, manifest: PersonaManifest)
    requires
        call_ensures(PersonaManifestWire::into_manifest, (wire,), manifest),
    ensures
        manifest.subsystems.memory == (wire.memory != Some(false)),
        manifest.subsystems.persona_reminder == (wire.persona_reminder != Some(false)),
        manifest.subsystems.voice == (wire.voice != Some(false)),
        manifest.subsystems.emotion == (wire.emotion != Some(false)),
        json::opt_texts(manifest.plugins.scripts) == json::opt_texts(wire.plugins.scripts),
        json::opt_texts(manifest.plugins.skills) == json::opt_texts(wire.plugins.skills),
        json::opt_texts(manifest.plugins.mcp) == json::opt_texts(wire.plugins.mcp),
{
    assert(manifest@ == manifest_of(wire@));
}

/// Where the switch that skills once had is off, the plugins are those of the
/// file, or all there are, without skills. Where it is on, skills come last
/// where the file chooses plugins and has them not. Where there is no switch,
/// the plugins are those of the file.
pub proof fn the_switch_decides_on_skills(wire: PersonaManifestWire, manifest: PersonaManifest)
    requires
        call_ensures(PersonaManifestWire::into_manifest, (wire,), manifest),
    ensures
        match (wire.skills_switch, wire.plugins.enabled, manifest.plugins.enabled) {
            (Some(false), Some(list), Some(after)) => table::is_rest(
                json::texts(list@),
                json::texts(after@),
                |id: Seq<char>| id == "skills"@,
            ),
            (Some(false), None, Some(after)) => table::is_rest(
                PLUGIN_IDS@.map_values(|id: &'static str| id@),
                json::texts(after@),
                |id: Seq<char>| id == "skills"@,
            ),
            (Some(true), Some(list), Some(after)) => json::texts(after@) == (if json::texts(
                list@,
            ).contains("skills"@) {
                json::texts(list@)
            } else {
                json::texts(list@) + seq!["skills"@]
            }),
            (None, Some(list), Some(after)) => json::texts(after@) == json::texts(list@),
            (_, None, None) => wire.skills_switch != Some(false),
            _ => false,
        },
{
    assert(manifest@ == manifest_of(wire@));
    assert(manifest@.enabled == folded(wire.skills_switch, wire@.enabled));
    let gone = |id: Seq<char>| id == "skills"@;
    let chosen = |id: Seq<char>| id != SKILLS_PLUGIN@;
    if wire.skills_switch == Some(false) {
        match wire.plugins.enabled {
            Some(list) => {
                table::lemma_chosen_rest(json::texts(list@), chosen, gone);
                assert(without_skills(json::texts(list@)) == json::texts(list@).filter(chosen));
            },
            None => {
                let all = PLUGIN_IDS@.map_values(|id: &'static str| id@);
                table::lemma_chosen_rest(all, chosen, gone);
                assert(ids_without_skills() == all.filter(chosen));
            },
        }
    }
    if let (Some(true), Some(list)) = (wire.skills_switch, wire.plugins.enabled) {
        assert(json::texts(list@).push("skills"@) =~= json::texts(list@) + seq!["skills"@]);
    }
}

/// Whether a plugin came with the program, or once did.
pub open spec fn came_with_it(id: Seq<char>) -> bool {
    ||| PLUGIN_IDS@.map_values(|id: &'static str| id@).contains(id)
    ||| id == "deep_research"@
    ||| id == "diagnostics"@
    ||| id == "package_advisor"@
    ||| id == "api_quota"@
}

proof fn lemma_came_with_it(id: Seq<char>)
    ensures
        is_known(id) == came_with_it(id),
{
    let ids = PLUGIN_IDS@.map_values(|id: &'static str| id@);
    if builtin_plugins::is_id(PLUGIN_IDS@, id) {
        let i = choose|i: int| 0 <= i < PLUGIN_IDS@.len() && (#[trigger] PLUGIN_IDS@[i])@ == id;
        assert(ids[i] == id);
    }
    if ids.contains(id) {
        let i = choose|i: int| 0 <= i < ids.len() && ids[i] == id;
        assert(PLUGIN_IDS@[i]@ == id);
    }
    let retired = RETIRED_PLUGIN_IDS@;
    assert(retired[0]@ == "deep_research"@ && retired[1]@ == "diagnostics"@ && retired[2]@
        == "package_advisor"@ && retired[3]@ == "api_quota"@);
}

/// A manifest is valid where it chooses no plugins, or every plugin that it
/// names came with the program, now or once. Otherwise the error names those
/// that did not, in order.
pub proof fn only_known_plugins_are_valid(
    manifest: &PersonaManifest,
    done: Result<(), ManifestError>,
)
    requires
        call_ensures(PersonaManifest::validate, (manifest,), done),
    ensures
        done is Ok <==> (manifest.plugins.enabled matches Some(list) ==> forall|i: int|
            0 <= i < list@.len() ==> came_with_it((#[trigger] list@[i])@)),
        done matches Err(error) ==> (manifest.plugins.enabled matches Some(list) && (
        error matches ManifestError::UnknownPlugins(ids) && table::is_rest(
            json::texts(list@),
            json::texts(ids@),
            |id: Seq<char>| came_with_it(id),
        ))),
{
    if let Some(list) = manifest.plugins.enabled {
        let all = json::texts(list@);
        let chosen = |id: Seq<char>| !is_known(id);
        let gone = |id: Seq<char>| came_with_it(id);
        assert forall|i: int| 0 <= i < all.len() implies chosen(#[trigger] all[i]) == !gone(
            all[i],
        ) by {
            lemma_came_with_it(all[i]);
        }
        table::lemma_chosen_rest(all, chosen, gone);
        assert(unknown_of(all) == all.filter(chosen));
        assert(unknown_in(manifest@) == all.filter(chosen));
        if forall|i: int| 0 <= i < list@.len() ==> came_with_it((#[trigger] list@[i])@) {
            if all.filter(chosen).len() > 0 {
                let id = all.filter(chosen)[0];
                assert(all.filter(chosen).contains(id));
                all.lemma_filter_contains_rev(chosen, id);
                let i = choose|i: int| 0 <= i < all.len() && all[i] == id;
                assert(list@[i]@ == id);
                lemma_came_with_it(id);
                assert(table::count(all, |row: Seq<char>| !gone(row), all.len() as int) > 0);
                lemma_none_counted(all, |row: Seq<char>| !gone(row), all.len() as int);
            }
        }
        if done is Ok {
            assert forall|i: int| 0 <= i < list@.len() implies came_with_it(
                (#[trigger] list@[i])@,
            ) by {
                assert(all[i] == list@[i]@);
                if !came_with_it(all[i]) {
                    lemma_came_with_it(all[i]);
                    table::lemma_chosen_place(all, chosen, i);
                }
            }
        }
    }
}

proof fn lemma_none_counted<T>(rows: Seq<T>, keep: spec_fn(T) -> bool, n: int)
    requires
        0 <= n <= rows.len(),
        forall|i: int| 0 <= i < n ==> !keep(#[trigger] rows[i]),
    ensures
        table::count(rows, keep, n) == 0,
    decreases n,
{
    if n > 0 {
        lemma_none_counted(rows, keep, n - 1);
        assert(!keep(rows[n - 1]));
    }
}

/// A plugin is used where plugins are not chosen, or it is among those that
/// are. Skills are where the plugin is and the machine has them on; memory
/// where the persona and the machine have it on.
pub proof fn plugins_are_used_where_chosen(
    manifest: &PersonaManifest,
    config: &AppConfig,
    id: &str,
    used: bool,
    memory: bool,
    skills: bool,
)
    requires
        call_ensures(PersonaManifest::plugin_enabled, (manifest, id), used),
        call_ensures(PersonaManifest::memory_enabled, (manifest, config), memory),
        call_ensures(PersonaManifest::skills_enabled, (manifest, config), skills),
    ensures
        used == match manifest.plugins.enabled {
            None => true,
            Some(list) => exists|i: int| 0 <= i < list@.len() && (#[trigger] list@[i])@ == id@,
        },
        memory == (manifest.subsystems.memory && config.switches.memory),
        id@ == "skills"@ ==> skills == (used && config.switches.skills),
{
    if let Some(list) = manifest.plugins.enabled {
        json::lemma_listed(list@, id@);
    }
}

/// A persona without a file uses everything, unless its name is `dev`, blanks
/// aside: that one has no subsystem and no plugin but the one that sends to
/// messaging platforms.
pub proof fn a_persona_without_a_file_uses_everything(persona: &str, manifest: PersonaManifest)
    requires
        call_ensures(PersonaManifest::builtin_for, (persona,), manifest),
    ensures
        manifest.plugins.scripts is None && manifest.plugins.skills is None
            && manifest.plugins.mcp is None,
        ({
            let on = text::trim(persona@) != "dev"@;
            &&& manifest.subsystems == (Subsystems {
                memory: on,
                persona_reminder: on,
                voice: on,
                emotion: on,
            })
            &&& on ==> manifest.plugins.enabled is None
            &&& !on ==> (manifest.plugins.enabled matches Some(list) && list@.len() == 1
                && list@[0]@ == "platform_outreach"@)
        }),
{
    assert(manifest@ == builtin_view(persona@));
    if text::trim(persona@) == "dev"@ {
        let list = manifest.plugins.enabled->Some_0;
        assert(json::texts(list@).len() == 1);
        assert(json::texts(list@)[0] == "platform_outreach"@);
    }
}

/// The manifest of a persona is the one of its file where that can be read, and
/// otherwise that of a persona without a file.
pub proof fn a_file_that_can_be_read_counts(
    raw: Option<&str>,
    persona: &str,
    loaded: PersonaManifest,
    read: Result<PersonaManifest, ManifestError>,
    other: PersonaManifest,
)
    requires
        call_ensures(PersonaManifest::load, (raw, persona), loaded),
        raw matches Some(file) ==> call_ensures(PersonaManifest::parse, (file,), read),
        call_ensures(PersonaManifest::builtin_for, (persona,), other),
    ensures
        loaded@ == (match (raw, read) {
            (Some(_), Ok(manifest)) => manifest@,
            _ => other@,
        }),
{
}

/// The file of a persona is called `persona.toml` and is in the directory of
/// the persona.
pub proof fn the_file_is_in_the_directory(dir: &str, path: String)
    requires
        call_ensures(PersonaManifest::manifest_path, (dir,), path),
    ensures
        dir@.len() == 0 ==> path@ == "persona.toml"@,
        dir@.len() > 0 && dir@.last() == '/' ==> path@ == dir@ + "persona.toml"@,
        dir@.len() > 0 && dir@.last() != '/' ==> path@ == dir@ + seq!['/'] + "persona.toml"@,
{
    reveal_strlit("/");
    assert("/"@ =~= seq!['/']);
    if dir@.len() == 0 {
        assert(path@ =~= "persona.toml"@);
    }
}

/// An error says what the parser says, that a type is wrong, or which plugins
/// are not known and which are.
pub proof fn errors_say_what_is_wrong(
    error: &ManifestError,
    message: String,
    known: &Vec<String>,
    unknown: &Vec<String>,
    known_ones: String,
    unknown_ones: String,
)
    requires
        call_ensures(ManifestError::message, (error,), message),
        json::texts(known@) == PLUGIN_IDS@.map_values(|id: &'static str| id@),
        call_ensures(join, (known, known.len(), ", "), known_ones),
        error matches ManifestError::UnknownPlugins(ids) ==> ids@ == unknown@,
        call_ensures(join, (unknown, unknown.len(), ", "), unknown_ones),
    ensures
        error matches ManifestError::NotToml(reason) ==> message@ == reason@,
        error is WrongType ==> message@ == "a value in persona.toml is not of the expected type"@,
        error is UnknownPlugins ==> message@ == "unknown plugin id(s) in persona.toml: "@
            + unknown_ones@ + "; known: "@ + known_ones@,
{
    assert(text::views(known@) =~= json::texts(known@));
    assert(text::views(known@).take(known@.len() as int) =~= json::texts(known@));
    assert(text::views(unknown@) =~= json::texts(unknown@));
    assert(text::views(unknown@).take(unknown@.len() as int) =~= json::texts(unknown@));
}

/// Whether a document has a table with a value: under a name, or at a place
/// where the table is written as a list.
pub open spec fn has_value(
    doc: Seq<(Seq<char>, Seq<char>)>,
    table: Seq<char>,
    name: Seq<char>,
    place: int,
    value: Seq<char>,
) -> bool {
    json::named(doc, table) matches Some(text) && (match json::json_shape(text) {
        Some(JsonView::Object(fields)) => json::named(fields, name) == Some(value),
        Some(JsonView::List(items)) => 0 <= place < items.len() && items[place] == value,
        _ => false,
    })
}

/// Flags and lists are read under their names, and where a table is written as
/// a list at their places. What is neither a flag nor a list of texts is no
/// manifest.
pub proof fn values_are_read_under_their_names(
    raw: &str,
    wire: Option<PersonaManifestWire>,
    doc: Seq<(Seq<char>, Seq<char>)>,
    value: Seq<char>,
)
    requires
        call_ensures(read_wire, (raw,), wire),
        json::json_shape(raw@) == Some(JsonView::Object(doc)),
    ensures
        ({
            let flag = match json::json_shape(value) {
                Some(JsonView::Bool(on)) => Some(on),
                _ => None,
            };
            let list = json::text_list(value);
            &&& has_value(doc, "subsystems"@, "memory"@, 0, value) ==> match wire {
                Some(w) => flag is Some && w.memory == flag,
                None => true,
            }
            &&& has_value(doc, "subsystems"@, "skills"@, 1, value) ==> match wire {
                Some(w) => flag is Some && w.skills_switch == flag,
                None => true,
            }
            &&& has_value(doc, "subsystems"@, "persona_reminder"@, 2, value) ==> match wire {
                Some(w) => flag is Some && w.persona_reminder == flag,
                None => true,
            }
            &&& has_value(doc, "subsystems"@, "voice"@, 3, value) ==> match wire {
                Some(w) => flag is Some && w.voice == flag,
                None => true,
            }
            &&& has_value(doc, "subsystems"@, "emotion"@, 4, value) ==> match wire {
                Some(w) => flag is Some && w.emotion == flag,
                None => true,
            }
            &&& has_value(doc, "plugins"@, "enabled"@, 0, value) ==> match wire {
                Some(w) => list is Some && json::opt_texts(w.plugins.enabled) == list,
                None => true,
            }
            &&& has_value(doc, "plugins"@, "scripts"@, 1, value) ==> match wire {
                Some(w) => list is Some && json::opt_texts(w.plugins.scripts) == list,
                None => true,
            }
            &&& has_value(doc, "plugins"@, "skills"@, 2, value) ==> match wire {
                Some(w) => list is Some && json::opt_texts(w.plugins.skills) == list,
                None => true,
            }
            &&& has_value(doc, "plugins"@, "mcp"@, 3, value) ==> match wire {
                Some(w) => list is Some && json::opt_texts(w.plugins.mcp) == list,
                None => true,
            }
        }),
{
}

/// A document without the two tables is a manifest that says nothing.
pub proof fn an_empty_file_says_nothing(
    raw: &str,
    wire: Option<PersonaManifestWire>,
    doc: Seq<(Seq<char>, Seq<char>)>,
)
    requires
        call_ensures(read_wire, (raw,), wire),
        json::json_shape(raw@) == Some(JsonView::Object(doc)),
        json::named(doc, "subsystems"@) is None,
        json::named(doc, "plugins"@) is None,
    ensures
        wire matches Some(w) && w.memory is None && w.skills_switch is None
            && w.persona_reminder is None && w.voice is None && w.emotion is None
            && w.plugins.enabled is None && w.plugins.scripts is None && w.plugins.skills is None
            && w.plugins.mcp is None,
{
    let none = JsonView::Object(Seq::<(Seq<char>, Seq<char>)>::empty());
    assert(table_of(JsonView::Object(doc), "subsystems"@) == Some(none));
    assert(table_of(JsonView::Object(doc), "plugins"@) == Some(none));
    assert(forall|key: Seq<char>| #[trigger]
        json::named(Seq::<(Seq<char>, Seq<char>)>::empty(), key) is None);
}

} // verus!
