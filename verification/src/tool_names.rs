//! What the names of tools say.

use vstd::prelude::*;

use crate::text::{self, same_text, starts_with};

verus! {

/// The tools that run commands.
pub const COMMAND_TOOLS: [&'static str; 2] = ["run_command", "Bash"];

/// The tools that change files on disk, under the names that different agents
/// give them and that they once had.
pub const FILE_EDIT_TOOLS: [&'static str; 12] = [
    "edit",
    "apply_patch",
    "write_file",
    "edit_file",
    "edit_string",
    "Edit",
    "Write",
    "MultiEdit",
    "NotebookEdit",
    "write_to_file",
    "replace_file_content",
    "multi_replace_file_content",
];

/// What kind of step a tool is in a summary.
#[derive(Clone, Copy, Debug, PartialEq, Eq, Structural)]
pub enum ToolKind {
    Command,
    FileEdit,
    Other,
}

/// Whether `name` is one of `names`.
pub open spec fn is_named(names: Seq<&str>, name: Seq<char>) -> bool {
    exists|i: int| 0 <= i < names.len() && (#[trigger] names[i])@ == name
}

/// Whether `name` is one of `names`.
fn one_of(names: &[&'static str], name: &str) -> (r: bool)
    ensures
        r == is_named(names@, name@),
{
    let mut i: usize = 0;
    while i < names.len()
        invariant
            i <= names@.len(),
            forall|k: int| 0 <= k < i ==> (#[trigger] names@[k])@ != name@,
        decreases names@.len() - i,
    {
        if same_text(names[i], name) {
            return true;
        }
        i += 1;
    }
    false
}

/// Whether a tool runs commands.
pub fn is_command_tool(name: &str) -> (r: bool)
    ensures
        r == is_named(COMMAND_TOOLS@, name@),
{
    one_of(&COMMAND_TOOLS, name)
}

/// Whether a text begins with another.
pub open spec fn begins(name: Seq<char>, prefix: Seq<char>) -> bool {
    text::strip_prefix(name, prefix) is Some
}

/// The tool that an event is of.
pub open spec fn base_name(name: Seq<char>) -> Seq<char> {
    if begins(name, "divine:"@) {
        "divine"@
    } else if begins(name, "use_meme:"@) {
        "use_meme"@
    } else if begins(name, "load_skill:"@) {
        "load_skill"@
    } else if begins(name, "load_tools:"@) {
        "load_tools"@
    } else if begins(name, "subagent:"@) {
        "subagent"@
    } else if begins(name, "task:"@) {
        "task"@
    } else {
        name
    }
}

/// The tool that an event is of. Some events carry more than the name of the
/// tool.
pub fn tool_event_base_name<'a>(name: &'a str) -> (base: &'a str)
    ensures
        base@ == base_name(name@),
{
    if starts_with(name, "divine:") {
        "divine"
    } else if starts_with(name, "use_meme:") {
        "use_meme"
    } else if starts_with(name, "load_skill:") {
        "load_skill"
    } else if starts_with(name, "load_tools:") {
        "load_tools"
    } else if starts_with(name, "subagent:") {
        "subagent"
    } else if starts_with(name, "task:") {
        "task"
    } else {
        name
    }
}

/// What kind of step a tool is in a summary.
pub open spec fn kind_of(name: Seq<char>) -> ToolKind {
    let base = base_name(name);
    if is_named(COMMAND_TOOLS@, base) {
        ToolKind::Command
    } else if is_named(FILE_EDIT_TOOLS@, base) {
        ToolKind::FileEdit
    } else {
        ToolKind::Other
    }
}

/// What kind of step a tool is in a summary.
pub fn tool_kind(name: &str) -> (kind: ToolKind)
    ensures
        kind == kind_of(name@),
{
    let base = tool_event_base_name(name);
    if is_command_tool(base) {
        ToolKind::Command
    } else if one_of(&FILE_EDIT_TOOLS, base) {
        ToolKind::FileEdit
    } else {
        ToolKind::Other
    }
}

// ---------------------------------------------------------------------------
// Laws
// ---------------------------------------------------------------------------

/// An event whose name is one of six words, a colon and more is of the tool
/// with that name.
pub proof fn events_are_of_their_tool(name: &str, base: &str, rest: Seq<char>)
    requires
        call_ensures(tool_event_base_name, (name,), base),
    ensures
        name@ == "divine:"@ + rest ==> base@ == "divine"@,
        name@ == "use_meme:"@ + rest ==> base@ == "use_meme"@,
        name@ == "load_skill:"@ + rest ==> base@ == "load_skill"@,
        name@ == "load_tools:"@ + rest ==> base@ == "load_tools"@,
        name@ == "subagent:"@ + rest ==> base@ == "subagent"@,
        name@ == "task:"@ + rest ==> base@ == "task"@,
{
    reveal_strlit("divine:");
    reveal_strlit("use_meme:");
    reveal_strlit("load_skill:");
    reveal_strlit("load_tools:");
    reveal_strlit("subagent:");
    reveal_strlit("task:");
    lemma_begins(name@, "divine:"@, rest);
    lemma_begins(name@, "use_meme:"@, rest);
    lemma_begins(name@, "load_skill:"@, rest);
    lemma_begins(name@, "load_tools:"@, rest);
    lemma_begins(name@, "subagent:"@, rest);
    lemma_begins(name@, "task:"@, rest);
    lemma_parted(name@, "divine:"@);
    lemma_parted(name@, "use_meme:"@);
    lemma_parted(name@, "load_skill:"@);
    lemma_parted(name@, "load_tools:"@);
    lemma_parted(name@, "subagent:"@);
    lemma_parted(name@, "task:"@);
    assert("load_skill:"@[5] == 's');
    assert("load_tools:"@[5] == 't');
    assert("subagent:"@[0] == 's');
    assert("task:"@[0] == 't');
    assert("divine:"@[0] == 'd');
    assert("use_meme:"@[0] == 'u');
    assert("load_skill:"@[0] == 'l');
    assert("load_tools:"@[0] == 'l');
}

proof fn lemma_begins(name: Seq<char>, prefix: Seq<char>, rest: Seq<char>)
    requires
        prefix.len() > 0,
    ensures
        name == prefix + rest ==> begins(name, prefix),
{
    if name == prefix + rest {
        assert(name.subrange(0, prefix.len() as int) =~= prefix);
    }
}

proof fn lemma_parted(name: Seq<char>, prefix: Seq<char>)
    ensures
        begins(name, prefix) ==> prefix.len() <= name.len() && forall|i: int|
            0 <= i < prefix.len() ==> #[trigger] name[i] == prefix[i],
{
    if begins(name, prefix) {
        assert forall|i: int| 0 <= i < prefix.len() implies #[trigger] name[i] == prefix[i] by {
            assert(name.subrange(0, prefix.len() as int)[i] == prefix[i]);
        }
    }
}

/// Any other event is of the tool with its own name.
pub proof fn other_events_are_of_their_name(name: &str, base: &str)
    requires
        call_ensures(tool_event_base_name, (name,), base),
        !name@.contains(':'),
    ensures
        base@ == name@,
{
    reveal_strlit("divine:");
    reveal_strlit("use_meme:");
    reveal_strlit("load_skill:");
    reveal_strlit("load_tools:");
    reveal_strlit("subagent:");
    reveal_strlit("task:");
    lemma_parted(name@, "divine:"@);
    lemma_parted(name@, "use_meme:"@);
    lemma_parted(name@, "load_skill:"@);
    lemma_parted(name@, "load_tools:"@);
    lemma_parted(name@, "subagent:"@);
    lemma_parted(name@, "task:"@);
    assert("divine:"@[6] == ':');
    assert("use_meme:"@[8] == ':');
    assert("load_skill:"@[10] == ':');
    assert("load_tools:"@[10] == ':');
    assert("subagent:"@[8] == ':');
    assert("task:"@[4] == ':');
}

/// A tool runs commands where it has one of two names; a step is a command or
/// an edit where the tool that its event is of has one of the names of such
/// tools.
pub proof fn tools_are_known_by_name(
    name: &str,
    base: &str,
    kind: ToolKind,
    runs: bool,
)
    requires
        call_ensures(tool_kind, (name,), kind),
        call_ensures(tool_event_base_name, (name,), base),
        call_ensures(is_command_tool, (name,), runs),
    ensures
        runs == (name@ == "run_command"@ || name@ == "Bash"@),
        kind == ToolKind::Command <==> base@ == "run_command"@ || base@ == "Bash"@,
        kind == ToolKind::FileEdit <==> {
            ||| base@ == "edit"@
            ||| base@ == "apply_patch"@
            ||| base@ == "write_file"@
            ||| base@ == "edit_file"@
            ||| base@ == "edit_string"@
            ||| base@ == "Edit"@
            ||| base@ == "Write"@
            ||| base@ == "MultiEdit"@
            ||| base@ == "NotebookEdit"@
            ||| base@ == "write_to_file"@
            ||| base@ == "replace_file_content"@
            ||| base@ == "multi_replace_file_content"@
        },
{
    lemma_named(name@);
    lemma_named(base@);
    assert(kind == kind_of(name@));
    assert(base@ == base_name(name@));
    lemma_edits_run_nothing(base@);
}

/// No tool that changes files runs commands.
proof fn lemma_edits_run_nothing(name: Seq<char>)
    ensures
        is_named(FILE_EDIT_TOOLS@, name) ==> !is_named(COMMAND_TOOLS@, name),
{
    reveal_strlit("run_command");
    reveal_strlit("Bash");
    reveal_strlit("edit");
    reveal_strlit("apply_patch");
    reveal_strlit("write_file");
    reveal_strlit("edit_file");
    reveal_strlit("edit_string");
    reveal_strlit("Edit");
    reveal_strlit("Write");
    reveal_strlit("MultiEdit");
    reveal_strlit("NotebookEdit");
    reveal_strlit("write_to_file");
    reveal_strlit("replace_file_content");
    reveal_strlit("multi_replace_file_content");
    lemma_named(name);
    assert("run_command"@.len() == 11 && "run_command"@[0] == 'r');
    assert("Bash"@.len() == 4 && "Bash"@[0] == 'B');
    assert("edit"@.len() == 4 && "edit"@[0] == 'e');
    assert("apply_patch"@.len() == 11 && "apply_patch"@[0] == 'a');
    assert("write_file"@.len() == 10);
    assert("edit_file"@.len() == 9);
    assert("edit_string"@.len() == 11 && "edit_string"@[0] == 'e');
    assert("Edit"@.len() == 4 && "Edit"@[0] == 'E');
    assert("Write"@.len() == 5);
    assert("MultiEdit"@.len() == 9);
    assert("NotebookEdit"@.len() == 12);
    assert("write_to_file"@.len() == 13);
    assert("replace_file_content"@.len() == 20);
    assert("multi_replace_file_content"@.len() == 26);
}

proof fn lemma_named(name: Seq<char>)
    ensures
        is_named(COMMAND_TOOLS@, name) <==> name == "run_command"@ || name == "Bash"@,
        is_named(FILE_EDIT_TOOLS@, name) <==> {
            ||| name == "edit"@
            ||| name == "apply_patch"@
            ||| name == "write_file"@
            ||| name == "edit_file"@
            ||| name == "edit_string"@
            ||| name == "Edit"@
            ||| name == "Write"@
            ||| name == "MultiEdit"@
            ||| name == "NotebookEdit"@
            ||| name == "write_to_file"@
            ||| name == "replace_file_content"@
            ||| name == "multi_replace_file_content"@
        },
{
    let a = COMMAND_TOOLS@;
    assert(a[0]@ == "run_command"@ && a[1]@ == "Bash"@);
    let b = FILE_EDIT_TOOLS@;
    assert(b[0]@ == "edit"@ && b[1]@ == "apply_patch"@ && b[2]@ == "write_file"@ && b[3]@
        == "edit_file"@ && b[4]@ == "edit_string"@ && b[5]@ == "Edit"@ && b[6]@ == "Write"@
        && b[7]@ == "MultiEdit"@ && b[8]@ == "NotebookEdit"@ && b[9]@ == "write_to_file"@
        && b[10]@ == "replace_file_content"@ && b[11]@ == "multi_replace_file_content"@);
}

} // verus!
