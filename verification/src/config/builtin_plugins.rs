//! The plugins that come with the program, and what can be switched on for the
//! machine.

use vstd::prelude::*;

use crate::config::app_config::{AppConfig, Switches};
use crate::text::same_text;

verus! {

/// A switch of the machine.
#[derive(Debug, Clone, Copy, PartialEq, Eq, Structural)]
pub enum MachineSwitch {
    Web,
    Vision,
    Skills,
    Mcp,
    Memes,
    ImageGeneration,
}

/// Whether a switch is on.
pub open spec fn is_on(switch: MachineSwitch, switches: Switches) -> bool {
    match switch {
        MachineSwitch::Web => switches.web,
        MachineSwitch::Vision => switches.vision,
        MachineSwitch::Skills => switches.skills,
        MachineSwitch::Mcp => switches.mcp,
        MachineSwitch::Memes => switches.memes,
        MachineSwitch::ImageGeneration => switches.image_generation,
    }
}

/// The switches with one of them set.
pub open spec fn switched(switch: MachineSwitch, switches: Switches, on: bool) -> Switches {
    match switch {
        MachineSwitch::Web => Switches { web: on, ..switches },
        MachineSwitch::Vision => Switches { vision: on, ..switches },
        MachineSwitch::Skills => Switches { skills: on, ..switches },
        MachineSwitch::Mcp => Switches { mcp: on, ..switches },
        MachineSwitch::Memes => Switches { memes: on, ..switches },
        MachineSwitch::ImageGeneration => Switches { image_generation: on, ..switches },
    }
}

impl MachineSwitch {
    /// Whether the switch is on.
    pub fn get(self, config: &AppConfig) -> (on: bool)
        ensures
            on == is_on(self, config.switches),
    {
        match self {
            MachineSwitch::Web => config.switches.web,
            MachineSwitch::Vision => config.switches.vision,
            MachineSwitch::Skills => config.switches.skills,
            MachineSwitch::Mcp => config.switches.mcp,
            MachineSwitch::Memes => config.switches.memes,
            MachineSwitch::ImageGeneration => config.switches.image_generation,
        }
    }

    /// Sets the switch.
    pub fn set(self, config: &mut AppConfig, on: bool)
        ensures
            *final(config) == (AppConfig {
                switches: switched(self, old(config).switches, on),
                ..*old(config)
            }),
    {
        match self {
            MachineSwitch::Web => {
                config.switches.web = on;
            },
            MachineSwitch::Vision => {
                config.switches.vision = on;
            },
            MachineSwitch::Skills => {
                config.switches.skills = on;
            },
            MachineSwitch::Mcp => {
                config.switches.mcp = on;
            },
            MachineSwitch::Memes => {
                config.switches.memes = on;
            },
            MachineSwitch::ImageGeneration => {
                config.switches.image_generation = on;
            },
        }
    }
}

/// A plugin that comes with the program.
#[derive(Debug, Clone, Copy)]
pub struct BuiltinPluginDescriptor {
    pub id: &'static str,
    pub name_zh: &'static str,
    pub hint_zh: &'static str,
    pub name_en: &'static str,
    pub hint_en: &'static str,
    /// Whether a new user is asked about it.
    pub toggleable: bool,
    /// Whether it has settings.
    pub settings: bool,
    /// What has to be on for it to work, where anything does.
    pub switch: Option<MachineSwitch>,
}

/// Something that is on or off for the whole machine.
#[derive(Debug, Clone, Copy)]
pub struct MachineFeature {
    pub id: &'static str,
    pub name_zh: &'static str,
    pub hint_zh: &'static str,
    pub name_en: &'static str,
    pub hint_en: &'static str,
    pub settings: bool,
    pub switch: MachineSwitch,
}

/// The plugins that a new user is asked about.
pub const TOGGLE_PLUGINS: [&'static str; 5] = [
    "alarm",
    "archlinux",
    "memes",
    "image_generation",
    "ledger",
];

/// All plugins that come with the program.
pub const PLUGIN_IDS: [&'static str; 11] = [
    "alarm",
    "archlinux",
    "memes",
    "image_generation",
    "ledger",
    "files",
    "knowledge_base",
    "mcp",
    "scripts",
    "skills",
    "platform_outreach",
];

/// A plugin that a new user is asked about.
pub open spec fn toggle(
    id: &'static str,
    zh: (&'static str, &'static str),
    en: (&'static str, &'static str),
    settings: bool,
    switch: Option<MachineSwitch>,
) -> BuiltinPluginDescriptor {
    BuiltinPluginDescriptor {
        id,
        name_zh: zh.0,
        hint_zh: zh.1,
        name_en: en.0,
        hint_en: en.1,
        toggleable: true,
        settings,
        switch,
    }
}

/// A plugin that is there unless someone looks for it.
pub open spec fn always(
    id: &'static str,
    zh: (&'static str, &'static str),
    en: (&'static str, &'static str),
    settings: bool,
    switch: Option<MachineSwitch>,
) -> BuiltinPluginDescriptor {
    BuiltinPluginDescriptor { toggleable: false, ..toggle(id, zh, en, settings, switch) }
}

/// The plugins that come with the program, in the order in which they are
/// listed.
pub open spec fn plugins() -> Seq<BuiltinPluginDescriptor> {
    seq![
        toggle("alarm", ("闹钟", "定时提醒"), ("Alarm", "Timed reminders"), false, None),
        toggle(
            "archlinux",
            ("Arch Linux", "查包与维基"),
            ("Arch Linux", "Packages and wiki"),
            false,
            None,
        ),
        toggle(
            "memes",
            ("表情包", "在对话里发表情包"),
            ("Memes", "Send memes in conversations"),
            true,
            Some(MachineSwitch::Memes),
        ),
        toggle(
            "image_generation",
            ("生图", "按描述画图"),
            ("Image generation", "Draw from a description"),
            true,
            Some(MachineSwitch::ImageGeneration),
        ),
        toggle("ledger", ("记账", "记录收支"), ("Ledger", "Income and expenses"), false, None),
        always("files", ("文件", "读写文件"), ("Files", "Read and write files"), false, None),
        always(
            "knowledge_base",
            ("知识库", "查阅与编辑知识库"),
            ("Knowledge base", "Read and edit notes"),
            false,
            None,
        ),
        always(
            "mcp",
            ("MCP", "外接的工具服务器"),
            ("MCP", "External tool servers"),
            false,
            Some(MachineSwitch::Mcp),
        ),
        always("scripts", ("脚本", "脚本工具"), ("Scripts", "Script tools"), false, None),
        always(
            "skills",
            ("技能", "技能目录与 load_skill"),
            ("Skills", "Loadable skill packs"),
            false,
            Some(MachineSwitch::Skills),
        ),
        always(
            "platform_outreach",
            ("平台外发", "往通讯平台发消息"),
            ("Outreach", "Send to messaging platforms"),
            false,
            None,
        ),
    ]
}

/// A plugin that a new user is asked about.
fn toggled(
    id: &'static str,
    zh: (&'static str, &'static str),
    en: (&'static str, &'static str),
    settings: bool,
    switch: Option<MachineSwitch>,
) -> (descriptor: BuiltinPluginDescriptor)
    ensures
        descriptor == toggle(id, zh, en, settings, switch),
{
    BuiltinPluginDescriptor {
        id,
        name_zh: zh.0,
        hint_zh: zh.1,
        name_en: en.0,
        hint_en: en.1,
        toggleable: true,
        settings,
        switch,
    }
}

/// A plugin that is there unless someone looks for it.
fn always_there(
    id: &'static str,
    zh: (&'static str, &'static str),
    en: (&'static str, &'static str),
    settings: bool,
    switch: Option<MachineSwitch>,
) -> (descriptor: BuiltinPluginDescriptor)
    ensures
        descriptor == always(id, zh, en, settings, switch),
{
    BuiltinPluginDescriptor {
        id,
        name_zh: zh.0,
        hint_zh: zh.1,
        name_en: en.0,
        hint_en: en.1,
        toggleable: false,
        settings,
        switch,
    }
}

/// The plugins that come with the program, in the order in which they are
/// listed.
pub fn builtin_plugins() -> (list: Vec<BuiltinPluginDescriptor>)
    ensures
        list@ == plugins(),
{
    let mut list: Vec<BuiltinPluginDescriptor> = Vec::new();
    list.push(toggled("alarm", ("闹钟", "定时提醒"), ("Alarm", "Timed reminders"), false, None));
    list.push(
        toggled(
            "archlinux",
            ("Arch Linux", "查包与维基"),
            ("Arch Linux", "Packages and wiki"),
            false,
            None,
        ),
    );
    list.push(
        toggled(
            "memes",
            ("表情包", "在对话里发表情包"),
            ("Memes", "Send memes in conversations"),
            true,
            Some(MachineSwitch::Memes),
        ),
    );
    list.push(
        toggled(
            "image_generation",
            ("生图", "按描述画图"),
            ("Image generation", "Draw from a description"),
            true,
            Some(MachineSwitch::ImageGeneration),
        ),
    );
    list.push(
        toggled("ledger", ("记账", "记录收支"), ("Ledger", "Income and expenses"), false, None),
    );
    list.push(
        always_there("files", ("文件", "读写文件"), ("Files", "Read and write files"), false, None),
    );
    list.push(
        always_there(
            "knowledge_base",
            ("知识库", "查阅与编辑知识库"),
            ("Knowledge base", "Read and edit notes"),
            false,
            None,
        ),
    );
    list.push(
        always_there(
            "mcp",
            ("MCP", "外接的工具服务器"),
            ("MCP", "External tool servers"),
            false,
            Some(MachineSwitch::Mcp),
        ),
    );
    list.push(
        always_there("scripts", ("脚本", "脚本工具"), ("Scripts", "Script tools"), false, None),
    );
    list.push(
        always_there(
            "skills",
            ("技能", "技能目录与 load_skill"),
            ("Skills", "Loadable skill packs"),
            false,
            Some(MachineSwitch::Skills),
        ),
    );
    list.push(
        always_there(
            "platform_outreach",
            ("平台外发", "往通讯平台发消息"),
            ("Outreach", "Send to messaging platforms"),
            false,
            None,
        ),
    );
    assert(list@ =~= plugins());
    list
}

/// What is on or off for the whole machine, in the order in which it is
/// listed.
pub open spec fn features() -> Seq<MachineFeature> {
    seq![
        MachineFeature {
            id: "web",
            name_zh: "网络搜索",
            hint_zh: "搜索与打开网页",
            name_en: "Web search",
            hint_en: "Search and open pages",
            settings: true,
            switch: MachineSwitch::Web,
        },
        MachineFeature {
            id: "vision",
            name_zh: "识图",
            hint_zh: "看懂图片",
            name_en: "Vision",
            hint_en: "Understand images",
            settings: true,
            switch: MachineSwitch::Vision,
        },
    ]
}

/// What is on or off for the whole machine.
pub fn machine_features() -> (list: Vec<MachineFeature>)
    ensures
        list@ == features(),
{
    let mut list: Vec<MachineFeature> = Vec::new();
    list.push(
        MachineFeature {
            id: "web",
            name_zh: "网络搜索",
            hint_zh: "搜索与打开网页",
            name_en: "Web search",
            hint_en: "Search and open pages",
            settings: true,
            switch: MachineSwitch::Web,
        },
    );
    list.push(
        MachineFeature {
            id: "vision",
            name_zh: "识图",
            hint_zh: "看懂图片",
            name_en: "Vision",
            hint_en: "Understand images",
            settings: true,
            switch: MachineSwitch::Vision,
        },
    );
    assert(list@ =~= features());
    list
}

/// Where a plugin stands, and -1 where it does not, from `from` on.
pub open spec fn plugin_at(list: Seq<BuiltinPluginDescriptor>, id: Seq<char>, from: int) -> int
    decreases list.len() - from,
{
    if from >= list.len() {
        -1
    } else if list[from].id@ == id {
        from
    } else {
        plugin_at(list, id, from + 1)
    }
}

/// Where a feature of the machine stands, and -1 where it does not, from
/// `from` on.
pub open spec fn feature_at(list: Seq<MachineFeature>, id: Seq<char>, from: int) -> int
    decreases list.len() - from,
{
    if from >= list.len() {
        -1
    } else if list[from].id@ == id {
        from
    } else {
        feature_at(list, id, from + 1)
    }
}

/// A plugin by its id.
pub fn descriptor(id: &str) -> (found: Option<BuiltinPluginDescriptor>)
    ensures
        match found {
            Some(plugin) => plugin_at(plugins(), id@, 0) >= 0 && plugin == plugins()[plugin_at(
                plugins(),
                id@,
                0,
            )],
            None => plugin_at(plugins(), id@, 0) == -1,
        },
{
    let list = builtin_plugins();
    let mut i: usize = 0;
    while i < list.len()
        invariant
            i <= list@.len(),
            list@ == plugins(),
            plugin_at(list@, id@, 0) == plugin_at(list@, id@, i as int),
        decreases list@.len() - i,
    {
        if same_text(list[i].id, id) {
            return Some(list[i]);
        }
        i += 1;
    }
    None
}

/// A feature of the machine by its id.
pub fn machine_feature(id: &str) -> (found: Option<MachineFeature>)
    ensures
        match found {
            Some(feature) => feature_at(features(), id@, 0) >= 0 && feature == features()[feature_at(
                features(),
                id@,
                0,
            )],
            None => feature_at(features(), id@, 0) == -1,
        },
{
    let list = machine_features();
    let mut i: usize = 0;
    while i < list.len()
        invariant
            i <= list@.len(),
            list@ == features(),
            feature_at(list@, id@, 0) == feature_at(list@, id@, i as int),
        decreases list@.len() - i,
    {
        if same_text(list[i].id, id) {
            return Some(list[i]);
        }
        i += 1;
    }
    None
}

/// The Chinese name and hint of a plugin, empty where there is no such plugin.
pub fn plugin_label(id: &str) -> (label: (&'static str, &'static str))
    ensures
        ({
            let at = plugin_at(plugins(), id@, 0);
            if at >= 0 {
                label == (plugins()[at].name_zh, plugins()[at].hint_zh)
            } else {
                label == ("", "")
            }
        }),
{
    match descriptor(id) {
        Some(plugin) => (plugin.name_zh, plugin.hint_zh),
        None => ("", ""),
    }
}

/// Whether an id is one of some.
pub open spec fn is_id(ids: Seq<&str>, id: Seq<char>) -> bool {
    exists|i: int| 0 <= i < ids.len() && (#[trigger] ids[i])@ == id
}

/// Whether an id is one of some.
pub fn holds_id(ids: &[&'static str], id: &str) -> (r: bool)
    ensures
        r == is_id(ids@, id@),
{
    let mut i: usize = 0;
    while i < ids.len()
        invariant
            i <= ids@.len(),
            forall|k: int| 0 <= k < i ==> (#[trigger] ids@[k])@ != id@,
        decreases ids@.len() - i,
    {
        if same_text(ids[i], id) {
            return true;
        }
        i += 1;
    }
    false
}

// ---------------------------------------------------------------------------
// Laws
// ---------------------------------------------------------------------------

/// Each switch is a flag of the configuration of its own, and memory has none.
pub proof fn switches_are_flags(switch: MachineSwitch, config: &AppConfig, on: bool)
    requires
        call_ensures(MachineSwitch::get, (switch, config), on),
    ensures
        switch == MachineSwitch::Web ==> on == config.switches.web,
        switch == MachineSwitch::Vision ==> on == config.switches.vision,
        switch == MachineSwitch::Skills ==> on == config.switches.skills,
        switch == MachineSwitch::Mcp ==> on == config.switches.mcp,
        switch == MachineSwitch::Memes ==> on == config.switches.memes,
        switch == MachineSwitch::ImageGeneration ==> on == config.switches.image_generation,
{
}

/// A switch that was set is as it was set, and every other is as it was.
pub proof fn only_what_is_set_is_changed(
    switch: MachineSwitch,
    other: MachineSwitch,
    switches: Switches,
    on: bool,
)
    ensures
        is_on(other, switched(switch, switches, on)) == (if other == switch {
            on
        } else {
            is_on(other, switches)
        }),
        switched(switch, switches, on).memory == switches.memory,
{
}

proof fn lemma_plugin_at(list: Seq<BuiltinPluginDescriptor>, id: Seq<char>, from: int)
    requires
        0 <= from <= list.len(),
    ensures
        ({
            let at = plugin_at(list, id, from);
            &&& at == -1 || from <= at < list.len() && list[at].id@ == id
            &&& forall|i: int|
                from <= i < list.len() && (at == -1 || i < at) ==> (#[trigger] list[i]).id@ != id
        }),
    decreases list.len() - from,
{
    if from < list.len() && list[from].id@ != id {
        lemma_plugin_at(list, id, from + 1);
    }
}

proof fn lemma_feature_at(list: Seq<MachineFeature>, id: Seq<char>, from: int)
    requires
        0 <= from <= list.len(),
    ensures
        ({
            let at = feature_at(list, id, from);
            &&& at == -1 || from <= at < list.len() && list[at].id@ == id
            &&& forall|i: int|
                from <= i < list.len() && (at == -1 || i < at) ==> (#[trigger] list[i]).id@ != id
        }),
    decreases list.len() - from,
{
    if from < list.len() && list[from].id@ != id {
        lemma_feature_at(list, id, from + 1);
    }
}

/// A plugin that is found has the id and is one of those that are listed; where
/// none is found, none that is listed has the id. Its label is its own.
pub proof fn plugins_are_found_by_id(
    id: &str,
    found: Option<BuiltinPluginDescriptor>,
    label: (&'static str, &'static str),
    list: Vec<BuiltinPluginDescriptor>,
)
    requires
        call_ensures(descriptor, (id,), found),
        call_ensures(plugin_label, (id,), label),
        call_ensures(builtin_plugins, (), list),
    ensures
        match found {
            Some(plugin) => plugin.id@ == id@ && list@.contains(plugin) && label == (
                plugin.name_zh,
                plugin.hint_zh,
            ),
            None => (forall|i: int| 0 <= i < list@.len() ==> (#[trigger] list@[i]).id@ != id@)
                && label == ("", ""),
        },
{
    lemma_plugin_at(plugins(), id@, 0);
    assert(list@ == plugins());
}

/// A feature of the machine that is found has the id and is one of those that
/// are listed; where none is found, none that is listed has the id.
pub proof fn features_are_found_by_id(
    id: &str,
    found: Option<MachineFeature>,
    list: Vec<MachineFeature>,
)
    requires
        call_ensures(machine_feature, (id,), found),
        call_ensures(machine_features, (), list),
    ensures
        match found {
            Some(feature) => feature.id@ == id@ && list@.contains(feature),
            None => forall|i: int| 0 <= i < list@.len() ==> (#[trigger] list@[i]).id@ != id@,
        },
{
    lemma_feature_at(features(), id@, 0);
    assert(list@ == features());
}

/// The plugins are listed by the ids that are known, in that order. A new user
/// is asked about the first five, and those that need something of the machine
/// need what their id says.
pub proof fn plugins_are_listed(list: Vec<BuiltinPluginDescriptor>, i: int)
    requires
        call_ensures(builtin_plugins, (), list),
        0 <= i < list@.len(),
    ensures
        list@.len() == PLUGIN_IDS@.len() == 11,
        list@[i].id@ == PLUGIN_IDS@[i]@,
        list@[i].toggleable == (i < TOGGLE_PLUGINS@.len()),
        i < TOGGLE_PLUGINS@.len() ==> list@[i].id@ == TOGGLE_PLUGINS@[i]@,
        list@[i].id@ == "memes"@ ==> list@[i].switch == Some(MachineSwitch::Memes),
        list@[i].id@ == "image_generation"@ ==> list@[i].switch == Some(
            MachineSwitch::ImageGeneration,
        ),
        list@[i].id@ == "mcp"@ ==> list@[i].switch == Some(MachineSwitch::Mcp),
        list@[i].id@ == "skills"@ ==> list@[i].switch == Some(MachineSwitch::Skills),
        list@[i].switch is Some ==> {
            ||| list@[i].id@ == "memes"@
            ||| list@[i].id@ == "image_generation"@
            ||| list@[i].id@ == "mcp"@
            ||| list@[i].id@ == "skills"@
        },
        list@[i].settings ==> list@[i].id@ == "memes"@ || list@[i].id@ == "image_generation"@,
{
    reveal_strlit("alarm");
    reveal_strlit("archlinux");
    reveal_strlit("memes");
    reveal_strlit("image_generation");
    reveal_strlit("ledger");
    reveal_strlit("files");
    reveal_strlit("knowledge_base");
    reveal_strlit("mcp");
    reveal_strlit("scripts");
    reveal_strlit("skills");
    reveal_strlit("platform_outreach");
    let all = plugins();
    assert(list@ == all);
    assert("memes"@[0] == 'm');
    assert("alarm"@[0] == 'a');
    assert("files"@[0] == 'f');
    assert("skills"@[0] == 's');
    assert("ledger"@[0] == 'l');
    let ids = PLUGIN_IDS@;
    let toggles = TOGGLE_PLUGINS@;
    assert(all[0].id@ == ids[0]@ && all[1].id@ == ids[1]@ && all[2].id@ == ids[2]@ && all[3].id@
        == ids[3]@ && all[4].id@ == ids[4]@ && all[5].id@ == ids[5]@ && all[6].id@ == ids[6]@
        && all[7].id@ == ids[7]@ && all[8].id@ == ids[8]@ && all[9].id@ == ids[9]@ && all[10].id@
        == ids[10]@);
    assert(toggles[0]@ == ids[0]@ && toggles[1]@ == ids[1]@ && toggles[2]@ == ids[2]@
        && toggles[3]@ == ids[3]@ && toggles[4]@ == ids[4]@);
}

} // verus!
