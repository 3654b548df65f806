//! The hook for bash: a line that is no command goes to the agent.

use vstd::prelude::*;

use crate::text::joined;

verus! {

/// The line before what is added to a startup file.
pub const BEGIN_MARKER: &'static str = "# >>> miyu bash hook >>>";

/// The line after it.
pub const END_MARKER: &'static str = "# <<< miyu bash hook <<<";

/// What the hook does.
pub const BODY: &'static str = "command_not_found_handle() {\n    [[ $- == *i* ]] || return 127\n\n    local text=\"$*\"\n    [[ -n \"$text\" ]] || return 127\n    [[ \"$text\" != *$'\\n'* && \"$text\" != *$'\\r'* ]] || return 127\n\n    miyu --shell-intercept --shell bash -- \"$@\" 2>/dev/null\n    return 127\n}\n";

/// The hook: how to find the program, and what to do.
pub fn hook(prelude: &str) -> (hook: String)
    ensures
        hook@ == prelude@ + BODY@,
{
    joined(prelude, BODY)
}

} // verus!
