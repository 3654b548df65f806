//! Fingerprints of what requests begin with, to tell who broke a cache.
//!
//! A provider that reads less from its cache than it could has either dropped
//! what it had, or was sent something else. Each request leaves a chain of
//! hashes, one for each message and all before it, and is compared with the
//! request before it in the same conversation. Hashes are kept, not texts.

use vstd::prelude::*;

use crate::digest::{self, digest_so_far, feed, hash64, new_hasher};
use crate::text::{self, chars_of, join, joined, push_decimal, same_text, strip_end};
use crate::text_map::TextMap;

verus! {

/// A message of a request as it is sent.
#[derive(Debug)]
pub struct EncodedMessage {
    pub role: String,
    /// None where it could not be encoded.
    pub encoded: Option<Vec<u8>>,
}

/// The definition of a tool as it is sent.
#[derive(Debug)]
pub struct EncodedTool {
    pub name: String,
    /// None where it could not be encoded.
    pub encoded: Option<Vec<u8>>,
}

/// The fingerprint of a request.
#[derive(Debug)]
pub struct PrefixChain {
    /// For each message, the hash of it and all before it.
    pub chain: Vec<u64>,
    /// The hash of the list of tools.
    pub tools: u64,
    /// The hash of each tool.
    pub tool_hashes: Vec<(String, u64)>,
    /// The hash of the system prompt, where the request begins with one.
    pub system: u64,
    pub roles: Vec<&'static str>,
}

/// The role of a message, one of a few.
pub open spec fn role_of(role: Seq<char>) -> &'static str {
    if role == "system"@ {
        "system"
    } else if role == "user"@ {
        "user"
    } else if role == "assistant"@ {
        "assistant"
    } else if role == "tool"@ {
        "tool"
    } else if role == "developer"@ {
        "developer"
    } else {
        "other"
    }
}

/// The role of a message, one of a few.
pub fn role_tag(role: &str) -> (tag: &'static str)
    ensures
        tag == role_of(role@),
{
    if same_text(role, "system") {
        "system"
    } else if same_text(role, "user") {
        "user"
    } else if same_text(role, "assistant") {
        "assistant"
    } else if same_text(role, "tool") {
        "tool"
    } else if same_text(role, "developer") {
        "developer"
    } else {
        "other"
    }
}

/// The bytes of a message, none where it could not be encoded.
pub open spec fn bytes_of(message: EncodedMessage) -> Seq<u8> {
    match message.encoded {
        Some(bytes) => bytes@,
        None => Seq::empty(),
    }
}

/// The bytes of messages, one after the other.
pub open spec fn all_bytes(messages: Seq<EncodedMessage>) -> Seq<u8>
    decreases messages.len(),
{
    if messages.len() == 0 {
        Seq::empty()
    } else {
        all_bytes(messages.drop_last()) + bytes_of(messages.last())
    }
}

/// The hash of the first `n` messages.
pub open spec fn chain_hash(messages: Seq<EncodedMessage>, n: int) -> int {
    digest::hash_number(digest::blake3_digest(all_bytes(messages.take(n))))
}

/// The hash of something encoded, 0 where it could not be.
pub open spec fn hash_or_zero(encoded: Option<Vec<u8>>) -> int {
    match encoded {
        Some(bytes) => digest::hash_number(bytes@),
        None => 0,
    }
}

/// The hash of something encoded, 0 where it could not be.
fn hash_of(encoded: &Option<Vec<u8>>) -> (hash: u64)
    ensures
        hash == hash_or_zero(*encoded),
{
    match encoded {
        Some(bytes) => hash64(bytes),
        None => 0,
    }
}

impl PrefixChain {
    /// Whether this is the fingerprint of a request.
    pub open spec fn is_of(
        &self,
        messages: Seq<EncodedMessage>,
        tools: Seq<EncodedTool>,
        tool_list: Option<Vec<u8>>,
    ) -> bool {
        &&& self.chain@.len() == messages.len()
        &&& forall|i: int|
            0 <= i < messages.len() ==> (#[trigger] self.chain@[i]) == chain_hash(messages, i + 1)
        &&& self.roles@.len() == messages.len()
        &&& forall|i: int|
            0 <= i < messages.len() ==> (#[trigger] self.roles@[i]) == role_of(messages[i].role@)
        &&& self.tool_hashes@.len() == tools.len()
        &&& forall|i: int|
            0 <= i < tools.len() ==> (#[trigger] self.tool_hashes@[i]).0 == tools[i].name
                && self.tool_hashes@[i].1 == hash_or_zero(tools[i].encoded)
        &&& self.system == if messages.len() > 0 && messages[0].role@ == "system"@ {
            hash_or_zero(messages[0].encoded)
        } else {
            0
        }
        &&& self.tools == hash_or_zero(tool_list)
    }

    /// The fingerprint of a request with these messages and tools.
    pub fn of(
        messages: &Vec<EncodedMessage>,
        tools: &Vec<EncodedTool>,
        tool_list: &Option<Vec<u8>>,
    ) -> (chain: Self)
        ensures
            chain.is_of(messages@, tools@, *tool_list),
    {
        let mut chain: Vec<u64> = Vec::new();
        let mut roles: Vec<&'static str> = Vec::new();
        let mut running = new_hasher();
        let mut i: usize = 0;
        proof {
            assert(messages@.take(0) =~= Seq::empty());
        }
        while i < messages.len()
            invariant
                i <= messages@.len(),
                digest::fed(running) == all_bytes(messages@.take(i as int)),
                chain@.len() == i,
                roles@.len() == i,
                forall|k: int| 0 <= k < i ==> (#[trigger] chain@[k]) == chain_hash(messages@, k + 1),
                forall|k: int| 0 <= k < i ==> (#[trigger] roles@[k]) == role_of(messages@[k].role@),
            decreases messages@.len() - i,
        {
            proof {
                assert(messages@.take(i + 1).drop_last() =~= messages@.take(i as int));
                assert(messages@.take(i + 1).last() == messages@[i as int]);
                assert(all_bytes(messages@.take(i as int)) + Seq::<u8>::empty() =~= all_bytes(
                    messages@.take(i as int),
                ));
            }
            if let Some(bytes) = &messages[i].encoded {
                feed(&mut running, bytes);
            }
            assert(digest::fed(running) == all_bytes(messages@.take(i + 1)));
            chain.push(hash64(&digest_so_far(&running)));
            roles.push(role_tag(messages[i].role.as_str()));
            i += 1;
        }
        let mut tool_hashes: Vec<(String, u64)> = Vec::new();
        let mut k: usize = 0;
        while k < tools.len()
            invariant
                k <= tools@.len(),
                tool_hashes@.len() == k,
                forall|n: int|
                    0 <= n < k ==> (#[trigger] tool_hashes@[n]).0 == tools@[n].name
                        && tool_hashes@[n].1 == hash_or_zero(tools@[n].encoded),
            decreases tools@.len() - k,
        {
            tool_hashes.push((tools[k].name.clone(), hash_of(&tools[k].encoded)));
            k += 1;
        }
        let system: u64 = if messages.len() > 0 && same_text(messages[0].role.as_str(), "system") {
            hash_of(&messages[0].encoded)
        } else {
            0
        };
        PrefixChain { chain, tools: hash_of(tool_list), tool_hashes, system, roles }
    }

    /// How many messages the request has.
    pub fn len(&self) -> (n: usize)
        ensures
            n == self.chain@.len(),
    {
        self.chain.len()
    }
}

/// How a request differs from the one before it in the same conversation.
#[derive(Debug)]
pub struct PrefixDiff {
    /// How many messages the request has.
    pub messages: usize,
    /// How many the one before had.
    pub previous: Option<usize>,
    /// How many messages at the beginning are the same.
    pub same: usize,
    /// The first message that is not the same, and its role, where the one
    /// before had a message there.
    pub rewritten_at: Option<(usize, &'static str)>,
    /// Whether the tools are others.
    pub tools_changed: bool,
    /// Which tools are others.
    pub tools_diff: Option<String>,
    pub system: u64,
    pub tools: u64,
}

impl PrefixDiff {
    /// Nothing known of either request.
    pub fn new() -> (diff: Self)
        ensures
            diff == (PrefixDiff {
                messages: 0,
                previous: None,
                same: 0,
                rewritten_at: None,
                tools_changed: false,
                tools_diff: None,
                system: 0,
                tools: 0,
            }),
    {
        PrefixDiff {
            messages: 0,
            previous: None,
            same: 0,
            rewritten_at: None,
            tools_changed: false,
            tools_diff: None,
            system: 0,
            tools: 0,
        }
    }

    /// Whether the request only adds to the one before: all its messages are
    /// still there, and the tools are the same.
    pub open spec fn only_adds(&self) -> bool {
        match self.previous {
            Some(previous) => self.same >= previous && !self.tools_changed,
            None => false,
        }
    }

    /// Whether the request only adds to the one before.
    pub fn append_only(&self) -> (r: bool)
        ensures
            r == self.only_adds(),
    {
        match self.previous {
            Some(previous) => self.same >= previous && !self.tools_changed,
            None => false,
        }
    }
}

/// What is kept of the last request of a conversation.
#[derive(Debug)]
pub struct LastChain {
    pub chain: Vec<u64>,
    pub tools: u64,
    pub tool_hashes: Vec<(String, u64)>,
}

/// How many tools are named at most. More are only counted.
pub const TOOLS_DIFF_LIMIT: usize = 12;

/// The hash of a tool in a list, the last where it is there more than once.
pub open spec fn tool_hash(tools: Seq<(String, u64)>, name: Seq<char>) -> Option<u64>
    decreases tools.len(),
{
    if tools.len() == 0 {
        None
    } else if tools.last().0@ == name {
        Some(tools.last().1)
    } else {
        tool_hash(tools.drop_last(), name)
    }
}

/// The tools that were added, as `+name`, and those that were edited, as
/// `~name`.
pub open spec fn new_tools(before: Seq<(String, u64)>, after: Seq<(String, u64)>) -> Seq<Seq<char>>
    decreases after.len(),
{
    if after.len() == 0 {
        Seq::empty()
    } else {
        let rest = new_tools(before, after.drop_last());
        let (name, hash) = after.last();
        match tool_hash(before, name@) {
            None => rest.push("+"@ + name@),
            Some(previous) => if previous != hash {
                rest.push("~"@ + name@)
            } else {
                rest
            },
        }
    }
}

/// The tools that were taken away, as `-name`.
pub open spec fn gone_tools(before: Seq<(String, u64)>, after: Seq<(String, u64)>) -> Seq<Seq<char>>
    decreases before.len(),
{
    if before.len() == 0 {
        Seq::empty()
    } else {
        let rest = gone_tools(before.drop_last(), after);
        let name = before.last().0@;
        if tool_hash(after, name) is None {
            rest.push("-"@ + name)
        } else {
            rest
        }
    }
}

/// What is said of a change of tools. Where none was added, edited or taken
/// away, it is their order.
pub open spec fn tool_change(before: Seq<(String, u64)>, after: Seq<(String, u64)>) -> Seq<char> {
    let changes = new_tools(before, after) + gone_tools(before, after);
    if changes.len() == 0 {
        "order"@
    } else if changes.len() > TOOLS_DIFF_LIMIT {
        text::joined_by(changes.take(TOOLS_DIFF_LIMIT as int), ","@) + ",…"@ + text::decimal(
            (changes.len() - TOOLS_DIFF_LIMIT) as nat,
        ) + " more"@
    } else {
        text::joined_by(changes, ","@)
    }
}

/// The hash of a tool in a list.
fn find_tool(tools: &Vec<(String, u64)>, name: &str) -> (hash: Option<u64>)
    ensures
        hash == tool_hash(tools@, name@),
{
    let mut n: usize = tools.len();
    proof {
        assert(tools@.take(tools@.len() as int) =~= tools@);
    }
    while n > 0
        invariant
            n <= tools@.len(),
            tool_hash(tools@, name@) == tool_hash(tools@.take(n as int), name@),
        decreases n,
    {
        proof {
            assert(tools@.take(n as int).drop_last() =~= tools@.take(n - 1));
            assert(tools@.take(n as int).last() == tools@[n - 1]);
        }
        if same_text(tools[n - 1].0.as_str(), name) {
            return Some(tools[n - 1].1);
        }
        n -= 1;
    }
    None
}

/// Says how tools changed.
pub fn describe_tool_change(before: &Vec<(String, u64)>, after: &Vec<(String, u64)>) -> (change:
    String)
    ensures
        change@ == tool_change(before@, after@),
{
    let mut changes: Vec<String> = Vec::new();
    let mut i: usize = 0;
    proof {
        assert(after@.take(0) =~= Seq::empty());
        assert(text::views(changes@) =~= Seq::empty());
    }
    while i < after.len()
        invariant
            i <= after@.len(),
            text::views(changes@) == new_tools(before@, after@.take(i as int)),
        decreases after@.len() - i,
    {
        let name = after[i].0.as_str();
        let ghost said = changes@;
        proof {
            assert(after@.take(i + 1).drop_last() =~= after@.take(i as int));
            assert(after@.take(i + 1).last() == after@[i as int]);
        }
        match find_tool(before, name) {
            None => {
                changes.push(joined("+", name));
                proof {
                    assert(text::views(changes@) =~= text::views(said).push("+"@ + name@));
                }
            },
            Some(previous) => {
                if previous != after[i].1 {
                    changes.push(joined("~", name));
                    proof {
                        assert(text::views(changes@) =~= text::views(said).push("~"@ + name@));
                    }
                }
            },
        }
        i += 1;
    }
    proof {
        assert(after@.take(after@.len() as int) =~= after@);
        assert(before@.take(0) =~= Seq::empty());
        assert(text::views(changes@) =~= new_tools(before@, after@) + gone_tools(
            before@.take(0),
            after@,
        ));
    }
    let mut k: usize = 0;
    while k < before.len()
        invariant
            k <= before@.len(),
            text::views(changes@) == new_tools(before@, after@) + gone_tools(
                before@.take(k as int),
                after@,
            ),
        decreases before@.len() - k,
    {
        let name = before[k].0.as_str();
        let ghost said = changes@;
        proof {
            assert(before@.take(k + 1).drop_last() =~= before@.take(k as int));
            assert(before@.take(k + 1).last() == before@[k as int]);
        }
        if find_tool(after, name).is_none() {
            changes.push(joined("-", name));
            proof {
                assert(text::views(changes@) =~= text::views(said).push("-"@ + name@));
                assert(text::views(changes@) =~= new_tools(before@, after@) + gone_tools(
                    before@.take(k + 1),
                    after@,
                ));
            }
        }
        k += 1;
    }
    let ghost all = new_tools(before@, after@) + gone_tools(before@, after@);
    proof {
        assert(before@.take(before@.len() as int) =~= before@);
        assert(all.take(all.len() as int) =~= all);
    }
    if changes.len() == 0 {
        return "order".to_owned();
    }
    if changes.len() > TOOLS_DIFF_LIMIT {
        let mut out = join(&changes, TOOLS_DIFF_LIMIT, ",");
        out.append(",…");
        push_decimal(&mut out, (changes.len() - TOOLS_DIFF_LIMIT) as u64);
        out.append(" more");
        out
    } else {
        join(&changes, changes.len(), ",")
    }
}

/// How many entries two chains begin with alike, from the `i`-th on.
pub open spec fn shared_from(a: Seq<u64>, b: Seq<u64>, i: int) -> int
    decreases a.len() - i,
{
    if 0 <= i < a.len() && i < b.len() && a[i] == b[i] {
        shared_from(a, b, i + 1)
    } else {
        i
    }
}

/// How many entries two chains begin with alike.
pub open spec fn shared(a: Seq<u64>, b: Seq<u64>) -> int {
    shared_from(a, b, 0)
}

/// How many entries two chains begin with alike.
fn shared_len(a: &Vec<u64>, b: &Vec<u64>) -> (n: usize)
    ensures
        n == shared(a@, b@),
        n <= a@.len(),
        n <= b@.len(),
{
    let mut n: usize = 0;
    while n < a.len() && n < b.len() && a[n] == b[n]
        invariant
            n <= a@.len(),
            n <= b@.len(),
            shared(a@, b@) == shared_from(a@, b@, n as int),
        decreases a@.len() - n,
    {
        n += 1;
    }
    n
}

/// What the last request of a conversation is kept under.
pub open spec fn bucket(scope: Seq<char>, session: Option<&str>) -> Seq<char> {
    scope + "|"@ + match session {
        Some(session) => session@,
        None => "-"@,
    }
}

/// Whether `diff` is how the request differs from the one before it, if there
/// was one.
pub open spec fn is_diff(previous: Option<LastChain>, chain: PrefixChain, diff: PrefixDiff) -> bool {
    &&& diff.messages == chain.chain@.len()
    &&& diff.system == chain.system
    &&& diff.tools == chain.tools
    &&& match previous {
        None => {
            &&& diff.previous is None
            &&& diff.same == 0
            &&& diff.rewritten_at is None
            &&& !diff.tools_changed
            &&& diff.tools_diff is None
        },
        Some(previous) => {
            let same = shared(chain.chain@, previous.chain@);
            &&& diff.previous == Some(previous.chain.len())
            &&& diff.same == same
            &&& diff.rewritten_at == if same < previous.chain@.len() {
                Some(
                    (
                        same as usize,
                        if same < chain.roles@.len() {
                            chain.roles@[same]
                        } else {
                            "none"
                        },
                    ),
                )
            } else {
                None
            }
            &&& diff.tools_changed == (previous.tools != chain.tools)
            &&& match diff.tools_diff {
                Some(change) => diff.tools_changed && change@ == tool_change(
                    previous.tool_hashes@,
                    chain.tool_hashes@,
                ),
                None => !diff.tools_changed,
            }
        },
    }
}

/// Whether `last` is what is kept of a request.
pub open spec fn is_last(chain: PrefixChain, last: LastChain) -> bool {
    &&& last.chain@ == chain.chain@
    &&& last.tools == chain.tools
    &&& last.tool_hashes@ == chain.tool_hashes@
}

/// A copy of a list of tools.
fn copy_tools(tools: &Vec<(String, u64)>) -> (r: Vec<(String, u64)>)
    ensures
        r@ == tools@,
{
    let mut out: Vec<(String, u64)> = Vec::new();
    let mut i: usize = 0;
    while i < tools.len()
        invariant
            i <= tools@.len(),
            out@ =~= tools@.take(i as int),
        decreases tools@.len() - i,
    {
        out.push((tools[i].0.clone(), tools[i].1));
        i += 1;
    }
    out
}

/// A copy of a chain.
fn copy_chain(chain: &Vec<u64>) -> (r: Vec<u64>)
    ensures
        r@ == chain@,
{
    let mut out: Vec<u64> = Vec::new();
    let mut i: usize = 0;
    while i < chain.len()
        invariant
            i <= chain@.len(),
            out@ =~= chain@.take(i as int),
        decreases chain@.len() - i,
    {
        out.push(chain[i]);
        i += 1;
    }
    out
}

/// The last request of each conversation.
#[derive(Debug)]
pub struct PrefixLog {
    pub last: TextMap<LastChain>,
}

impl PrefixLog {
    pub open spec fn wf(&self) -> bool {
        self.last.wf()
    }

    /// Before the first request.
    pub fn new() -> (log: Self)
        ensures
            log.wf(),
            log.last@ == Map::<Seq<char>, LastChain>::empty(),
    {
        PrefixLog { last: TextMap::new() }
    }

    /// The last request of a conversation.
    pub open spec fn previous(&self, key: Seq<char>) -> Option<LastChain> {
        if self.last@.contains_key(key) {
            Some(self.last@[key])
        } else {
            None
        }
    }
}

/// Compares a request with the one before it in the same conversation, and
/// keeps it for the next. Requests for different purposes do not begin
/// alike, so that each scope is a conversation of its own.
pub fn compare_and_store(log: &mut PrefixLog, scope: &str, session: Option<&str>, chain: &PrefixChain) -> (diff:
    PrefixDiff)
    requires
        old(log).wf(),
    ensures
        final(log).wf(),
        is_diff(old(log).previous(bucket(scope@, session)), *chain, diff),
        exists|kept: LastChain| #[trigger]
            is_last(*chain, kept) && final(log).last@ == old(log).last@.insert(
                bucket(scope@, session),
                kept,
            ),
{
    let mut key = joined(scope, "|");
    match session {
        Some(session) => key.append(session),
        None => key.append("-"),
    }
    let mut diff = PrefixDiff::new();
    diff.messages = chain.len();
    diff.system = chain.system;
    diff.tools = chain.tools;
    if let Some(previous) = log.last.get(key.as_str()) {
        let same: usize = shared_len(&chain.chain, &previous.chain);
        diff.previous = Some(previous.chain.len());
        diff.same = same;
        if same < previous.chain.len() {
            let role = if same < chain.roles.len() {
                chain.roles[same]
            } else {
                "none"
            };
            diff.rewritten_at = Some((same, role));
        }
        diff.tools_changed = previous.tools != chain.tools;
        if diff.tools_changed {
            diff.tools_diff = Some(
                describe_tool_change(&previous.tool_hashes, &chain.tool_hashes),
            );
        }
    }
    let kept = LastChain {
        chain: copy_chain(&chain.chain),
        tools: chain.tools,
        tool_hashes: copy_tools(&chain.tool_hashes),
    };
    assert(is_last(*chain, kept));
    log.last.insert(key, kept);
    diff
}

/// Whether all requests of a session were forgotten, and no others.
pub open spec fn is_forgotten(before: PrefixLog, after: PrefixLog, session: Seq<char>) -> bool {
    after.last@ == before.last@.restrict(
        Set::new(
            |key: Seq<char>|
                before.last@.contains_key(key) && text::strip_suffix(key, "|"@ + session) is None,
        ),
    )
}

/// Forgets the requests of a session.
pub fn forget_session(log: &mut PrefixLog, session: &str)
    requires
        old(log).wf(),
    ensures
        final(log).wf(),
        is_forgotten(*old(log), *final(log), session@),
{
    let suffix = joined("|", session);
    let ghost keep = |key: Seq<char>| text::strip_suffix(key, suffix@) is None;
    let test = |key: &str| -> (r: bool)
        ensures
            r == (text::strip_suffix(key@, suffix@) is None),
    { strip_end(&chars_of(key), suffix.as_str()).is_none() };
    log.last.retain(test, Ghost(keep));
    proof {
        assert(Set::new(
            |key: Seq<char>| old(log).last@.contains_key(key) && keep(key),
        ) =~= Set::new(
            |key: Seq<char>|
                old(log).last@.contains_key(key) && text::strip_suffix(
                    key,
                    "|"@ + session@,
                ) is None,
        ));
    }
}

// ---------------------------------------------------------------------------
// Laws
// ---------------------------------------------------------------------------

/// A request that has all messages of the one before, and the same tools, is
/// one that only adds, whatever it adds.
pub proof fn adding_messages_only_adds(
    before: Seq<EncodedMessage>,
    after: Seq<EncodedMessage>,
    old_tools: Seq<EncodedTool>,
    tools: Seq<EncodedTool>,
    tool_list: Option<Vec<u8>>,
    previous: PrefixChain,
    last: LastChain,
    chain: PrefixChain,
    diff: PrefixDiff,
)
    requires
        before.len() <= after.len(),
        after.take(before.len() as int) == before,
        previous.is_of(before, old_tools, tool_list),
        is_last(previous, last),
        chain.is_of(after, tools, tool_list),
        is_diff(Some(last), chain, diff),
    ensures
        diff.same == before.len(),
        diff.rewritten_at is None,
        diff.only_adds(),
{
    assert forall|i: int| 0 <= i < before.len() implies #[trigger] chain.chain@[i] == last.chain@[i] by {
        assert(after.take(i + 1) =~= before.take(i + 1)) by {
            assert forall|k: int| 0 <= k < i + 1 implies after[k] == before[k] by {
                assert(after.take(before.len() as int)[k] == after[k]);
            }
        }
        assert(previous.chain@[i] == chain_hash(before, i + 1));
    }
    lemma_shared(chain.chain@, last.chain@, 0);
}

proof fn lemma_shared(a: Seq<u64>, b: Seq<u64>, i: int)
    requires
        0 <= i <= b.len() <= a.len(),
        forall|k: int| 0 <= k < b.len() ==> #[trigger] a[k] == b[k],
    ensures
        shared_from(a, b, i) == b.len(),
    decreases b.len() - i,
{
    if i < b.len() {
        assert(a[i] == b[i]);
        lemma_shared(a, b, i + 1);
    }
}

/// A request is compared with the last of its own conversation: what is kept
/// of the others does not matter, and stays.
pub proof fn conversations_do_not_mix(
    before: PrefixLog,
    after: PrefixLog,
    key: Seq<char>,
    other: Seq<char>,
    kept: LastChain,
)
    requires
        after.last@ == before.last@.insert(key, kept),
        other != key,
    ensures
        after.previous(other) == before.previous(other),
        after.previous(key) == Some(kept),
{
}

/// Where the request before had a message at the first place that differs, the
/// difference names that place and the role of what stands there now, or that
/// nothing does, however far into the request the place is. It names none
/// exactly where all messages of the request before are still there.
pub proof fn the_first_rewrite_is_named(
    previous: LastChain,
    chain: PrefixChain,
    diff: PrefixDiff,
    k: int,
)
    requires
        is_diff(Some(previous), chain, diff),
        0 <= k <= previous.chain@.len(),
        k <= chain.chain@.len(),
        forall|j: int| 0 <= j < k ==> #[trigger] chain.chain@[j] == previous.chain@[j],
        k == previous.chain@.len() || k == chain.chain@.len() || chain.chain@[k]
            != previous.chain@[k],
    ensures
        diff.same == k,
        diff.messages == chain.chain@.len(),
        diff.previous == Some(previous.chain.len()),
        diff.rewritten_at is None <==> k == previous.chain@.len(),
        k < previous.chain@.len() ==> (diff.rewritten_at matches Some((at, role)) && at == k && (k
            < chain.roles@.len() ==> role == chain.roles@[k]) && (k >= chain.roles@.len() ==> role@
            == "none"@)),
{
    lemma_first_difference(chain.chain@, previous.chain@, k, 0);
}

proof fn lemma_first_difference(a: Seq<u64>, b: Seq<u64>, k: int, i: int)
    requires
        0 <= i <= k <= a.len(),
        k <= b.len(),
        forall|j: int| 0 <= j < k ==> #[trigger] a[j] == b[j],
        k == a.len() || k == b.len() || a[k] != b[k],
    ensures
        shared_from(a, b, i) == k,
    decreases k - i,
{
    if i < k {
        assert(a[i] == b[i]);
        lemma_first_difference(a, b, k, i + 1);
    }
}

/// The first request of a conversation differs from none.
pub proof fn a_first_request_differs_from_none(chain: PrefixChain, diff: PrefixDiff)
    requires
        is_diff(None, chain, diff),
    ensures
        diff.previous is None && diff.same == 0 && diff.rewritten_at is None,
        !diff.tools_changed && diff.tools_diff is None,
        diff.messages == chain.chain@.len(),
        !diff.only_adds(),
{
}

/// The tools have changed exactly where the hash of their list has, and then it
/// is said how. What the request itself begins with is told in any case.
pub proof fn changed_tools_are_told(previous: Option<LastChain>, chain: PrefixChain, diff: PrefixDiff)
    requires
        is_diff(previous, chain, diff),
    ensures
        diff.tools_changed <==> (previous matches Some(last) && last.tools != chain.tools),
        diff.tools_diff is Some <==> diff.tools_changed,
        diff.system == chain.system,
        diff.tools == chain.tools,
{
}

/// What is kept of a request is what the next is compared with: the same
/// request again has no rewritten message and no changed tools.
pub proof fn the_same_request_again_only_adds(chain: PrefixChain, last: LastChain, diff: PrefixDiff)
    requires
        is_last(chain, last),
        is_diff(Some(last), chain, diff),
    ensures
        diff.same == chain.chain@.len(),
        diff.rewritten_at is None,
        !diff.tools_changed,
        diff.only_adds(),
{
    lemma_first_difference(chain.chain@, last.chain@, chain.chain@.len() as int, 0);
}

/// A role is known by its name, and those that are not known are alike.
pub proof fn known_roles_are_named(role: &str, tag: &'static str)
    requires
        call_ensures(role_tag, (role,), tag),
    ensures
        role@ == "system"@ || role@ == "user"@ || role@ == "assistant"@ || role@ == "tool"@ || role@
            == "developer"@ ==> tag@ == role@,
        role@ != "system"@ && role@ != "user"@ && role@ != "assistant"@ && role@ != "tool"@ && role@
            != "developer"@ ==> tag@ == "other"@,
{
}

/// The fingerprint of a request holds a hash for each message that is that of
/// all bytes up to there, and one for each tool that is that of the tool alone.
/// The system prompt has one of its own where the request begins with it.
pub proof fn a_fingerprint_is_of_the_bytes(
    messages: &Vec<EncodedMessage>,
    tools: &Vec<EncodedTool>,
    tool_list: &Option<Vec<u8>>,
    chain: PrefixChain,
    i: int,
)
    requires
        call_ensures(PrefixChain::of, (messages, tools, tool_list), chain),
        0 <= i,
    ensures
        chain.chain@.len() == messages@.len() && chain.roles@.len() == messages@.len(),
        chain.tool_hashes@.len() == tools@.len(),
        i < messages@.len() ==> exists|sent: Seq<u8>| #[trigger]
            is_sent(messages@.take(i + 1), sent) && chain.chain@[i] == digest::hash_number(
                digest::blake3_digest(sent),
            ),
        i < tools@.len() ==> chain.tool_hashes@[i].0@ == tools@[i].name@,
        i < tools@.len() ==> match tools@[i].encoded {
            Some(bytes) => chain.tool_hashes@[i].1 == digest::hash_number(bytes@),
            None => chain.tool_hashes@[i].1 == 0,
        },
        match *tool_list {
            Some(bytes) => chain.tools == digest::hash_number(bytes@),
            None => chain.tools == 0,
        },
        messages@.len() > 0 && messages@[0].role@ == "system"@ ==> match messages@[0].encoded {
            Some(bytes) => chain.system == digest::hash_number(bytes@),
            None => chain.system == 0,
        },
        messages@.len() == 0 || messages@[0].role@ != "system"@ ==> chain.system == 0,
{
    if i < messages@.len() {
        lemma_sent(messages@.take(i + 1));
        assert(is_sent(messages@.take(i + 1), all_bytes(messages@.take(i + 1))));
        assert(chain.chain@[i] == chain_hash(messages@, i + 1));
    }
}

/// How many bytes messages have in all.
pub open spec fn byte_count(messages: Seq<EncodedMessage>, n: int) -> nat
    decreases n,
{
    if n <= 0 {
        0
    } else {
        byte_count(messages, n - 1) + match messages[n - 1].encoded {
            Some(bytes) => bytes@.len(),
            None => 0,
        }
    }
}

/// Whether `sent` is the bytes of messages: each message's stand behind those
/// of the messages before it, and there are no others.
pub open spec fn is_sent(messages: Seq<EncodedMessage>, sent: Seq<u8>) -> bool {
    &&& sent.len() == byte_count(messages, messages.len() as int)
    &&& forall|m: int, b: int|
        0 <= m < messages.len() && messages[m].encoded is Some && 0 <= b
            < messages[m].encoded->0@.len() ==> sent[byte_count(messages, m) + b] == (
        #[trigger] messages[m].encoded->0@[b])
}

proof fn lemma_count(a: Seq<EncodedMessage>, b: Seq<EncodedMessage>, n: int)
    requires
        n <= a.len(),
        n <= b.len(),
        forall|i: int| 0 <= i < n ==> #[trigger] a[i] == b[i],
    ensures
        byte_count(a, n) == byte_count(b, n),
    decreases n,
{
    if n > 0 {
        assert(a[n - 1] == b[n - 1]);
        lemma_count(a, b, n - 1);
    }
}

proof fn lemma_count_grows(messages: Seq<EncodedMessage>, m: int, n: int)
    requires
        0 <= m < n <= messages.len(),
    ensures
        byte_count(messages, m) + bytes_of(messages[m]).len() <= byte_count(messages, n),
    decreases n,
{
    if m < n - 1 {
        lemma_count_grows(messages, m, n - 1);
    }
}

proof fn lemma_sent(messages: Seq<EncodedMessage>)
    ensures
        is_sent(messages, all_bytes(messages)),
    decreases messages.len(),
{
    if messages.len() > 0 {
        let rest = messages.drop_last();
        let n = rest.len() as int;
        lemma_sent(rest);
        lemma_count(messages, rest, n);
        let sent = all_bytes(messages);
        assert forall|m: int, b: int|
            0 <= m < messages.len() && messages[m].encoded is Some && 0 <= b
                < messages[m].encoded->0@.len() implies sent[byte_count(messages, m) + b] == (
        #[trigger] messages[m].encoded->0@[b]) by {
            if m < n {
                lemma_count(messages, rest, m);
                lemma_count_grows(rest, m, n);
                assert(rest[m] == messages[m]);
                assert(rest[m].encoded->0@[b] == messages[m].encoded->0@[b]);
            }
        }
    }
}

/// Two conversations are kept apart: what requests are kept under is another
/// where the scope is, or the session, as long as a scope holds no bar. A
/// request without a session is kept like one of the session `-`.
pub proof fn conversations_have_their_own_places(
    scope: Seq<char>,
    session: Option<&str>,
    other_scope: Seq<char>,
    other: Option<&str>,
)
    requires
        !scope.contains('|'),
        !other_scope.contains('|'),
        bucket(scope, session) == bucket(other_scope, other),
    ensures
        scope == other_scope,
        session is Some && other is Some ==> session->0@ == other->0@,
        session is Some && other is None ==> session->0@ == "-"@,
{
    reveal_strlit("|");
    let a = bucket(scope, session);
    let b = bucket(other_scope, other);
    let n = scope.len() as int;
    let m = other_scope.len() as int;
    assert(a[n] == '|' && b[m] == '|');
    if n < m {
        assert(b[n] == other_scope[n]);
        assert(other_scope.contains('|'));
    } else if m < n {
        assert(a[m] == scope[m]);
        assert(scope.contains('|'));
    }
    assert(scope =~= a.take(n) && other_scope =~= b.take(n));
    let rest = a.skip(n + 1);
    match session {
        Some(session) => assert(rest =~= session@),
        None => assert(rest =~= "-"@),
    }
    match other {
        Some(other) => assert(rest =~= other@),
        None => assert(rest =~= "-"@),
    }
}

/// Whether a list has a tool of a name.
pub open spec fn has_tool(tools: Seq<(String, u64)>, name: Seq<char>) -> bool {
    exists|i: int| 0 <= i < tools.len() && (#[trigger] tools[i]).0@ == name
}

/// Whether `changes` tells how a list of tools changed: each tool that is new,
/// each with another hash, each that is gone, in that order of signs, and
/// nothing else. The lists name no tool twice.
pub open spec fn tells_changes(
    before: Seq<(String, u64)>,
    after: Seq<(String, u64)>,
    changes: Seq<Seq<char>>,
) -> bool {
    &&& forall|i: int|
        0 <= i < after.len() && !has_tool(before, (#[trigger] after[i]).0@) ==> changes.contains(
            "+"@ + after[i].0@,
        )
    &&& forall|i: int, j: int|
        0 <= i < after.len() && 0 <= j < before.len() && (#[trigger] after[i]).0@ == (
        #[trigger] before[j]).0@ && after[i].1 != before[j].1 ==> changes.contains(
            "~"@ + after[i].0@,
        )
    &&& forall|j: int|
        0 <= j < before.len() && !has_tool(after, (#[trigger] before[j]).0@) ==> changes.contains(
            "-"@ + before[j].0@,
        )
    &&& forall|c: int|
        0 <= c < changes.len() ==> is_new(before, after, #[trigger] changes[c]) || is_gone(
            before,
            after,
            changes[c],
        )
}

/// Whether a change is a tool that was added or edited.
pub open spec fn is_new(
    before: Seq<(String, u64)>,
    after: Seq<(String, u64)>,
    change: Seq<char>,
) -> bool {
    ||| exists|i: int|
        0 <= i < after.len() && change == "+"@ + (#[trigger] after[i]).0@ && !has_tool(
            before,
            after[i].0@,
        )
    ||| exists|i: int, j: int|
        0 <= i < after.len() && 0 <= j < before.len() && change == "~"@ + (
        #[trigger] after[i]).0@ && (#[trigger] before[j]).0@ == after[i].0@ && before[j].1
            != after[i].1
}

/// Whether a change is a tool that was taken away.
pub open spec fn is_gone(
    before: Seq<(String, u64)>,
    after: Seq<(String, u64)>,
    change: Seq<char>,
) -> bool {
    exists|j: int|
        0 <= j < before.len() && change == "-"@ + (#[trigger] before[j]).0@ && !has_tool(
            after,
            before[j].0@,
        )
}

/// Whether no name is in a list twice.
pub open spec fn names_differ(tools: Seq<(String, u64)>) -> bool {
    forall|i: int, j: int|
        0 <= i < j < tools.len() ==> (#[trigger] tools[i]).0@ != (#[trigger] tools[j]).0@
}

proof fn lemma_tool_hash(tools: Seq<(String, u64)>, name: Seq<char>)
    requires
        names_differ(tools),
    ensures
        tool_hash(tools, name) is Some <==> has_tool(tools, name),
        forall|i: int|
            0 <= i < tools.len() && (#[trigger] tools[i]).0@ == name ==> tool_hash(tools, name)
                == Some(tools[i].1),
    decreases tools.len(),
{
    if tools.len() > 0 {
        let rest = tools.drop_last();
        assert(names_differ(rest)) by {
            assert forall|i: int, j: int| 0 <= i < j < rest.len() implies (
            #[trigger] rest[i]).0@ != (#[trigger] rest[j]).0@ by {
                assert(tools[i].0@ != tools[j].0@);
            }
        }
        lemma_tool_hash(rest, name);
        if tools.last().0@ == name {
            assert(tools[tools.len() - 1].0@ == name);
        }
        assert forall|i: int| 0 <= i < tools.len() && (#[trigger] tools[i]).0@ == name implies
            tool_hash(tools, name) == Some(tools[i].1) by {
            if i < rest.len() {
                assert(rest[i].0@ == name);
                assert(tools[i].0@ != tools[tools.len() - 1].0@);
            }
        }
        if has_tool(tools, name) && tools.last().0@ != name {
            let i = choose|i: int| 0 <= i < tools.len() && (#[trigger] tools[i]).0@ == name;
            assert(rest[i].0@ == name);
        }
        if has_tool(rest, name) {
            let i = choose|i: int| 0 <= i < rest.len() && (#[trigger] rest[i]).0@ == name;
            assert(tools[i].0@ == name);
        }
    }
}

proof fn lemma_new(before: Seq<(String, u64)>, after: Seq<(String, u64)>)
    requires
        names_differ(before),
    ensures
        forall|i: int|
            0 <= i < after.len() && !has_tool(before, (#[trigger] after[i]).0@) ==> new_tools(
                before,
                after,
            ).contains("+"@ + after[i].0@),
        forall|i: int, j: int|
            0 <= i < after.len() && 0 <= j < before.len() && (#[trigger] after[i]).0@ == (
            #[trigger] before[j]).0@ && after[i].1 != before[j].1 ==> new_tools(
                before,
                after,
            ).contains("~"@ + after[i].0@),
        forall|c: int|
            0 <= c < new_tools(before, after).len() ==> is_new(
                before,
                after,
                #[trigger] new_tools(before, after)[c],
            ),
    decreases after.len(),
{
    if after.len() > 0 {
        let rest = after.drop_last();
        let n = rest.len() as int;
        lemma_new(before, rest);
        lemma_tool_hash(before, after.last().0@);
        let changes = new_tools(before, after);
        let fewer = new_tools(before, rest);
        assert forall|t: Seq<char>| fewer.contains(t) implies #[trigger] changes.contains(t) by {
            let c = choose|c: int| 0 <= c < fewer.len() && fewer[c] == t;
            assert(changes[c] == t);
        }
        assert forall|i: int|
            0 <= i < after.len() && !has_tool(before, (#[trigger] after[i]).0@) implies
            changes.contains("+"@ + after[i].0@) by {
            if i < n {
                assert(rest[i] == after[i]);
                assert(fewer.contains("+"@ + rest[i].0@));
            } else {
                assert(changes.last() == "+"@ + after[i].0@);
            }
        }
        assert forall|i: int, j: int|
            0 <= i < after.len() && 0 <= j < before.len() && (#[trigger] after[i]).0@ == (
            #[trigger] before[j]).0@ && after[i].1 != before[j].1 implies changes.contains(
            "~"@ + after[i].0@,
        ) by {
            if i < n {
                assert(rest[i] == after[i]);
                assert(rest[i].0@ == before[j].0@);
                assert(fewer.contains("~"@ + rest[i].0@));
            } else {
                assert(changes.last() == "~"@ + after[i].0@);
            }
        }
        assert forall|c: int| 0 <= c < changes.len() implies is_new(
            before,
            after,
            #[trigger] changes[c],
        ) by {
            if c < fewer.len() {
                assert(changes[c] == fewer[c]);
                lemma_new_stays(before, after, fewer[c]);
            } else {
                assert(after[n] == after.last());
                if has_tool(before, after[n].0@) {
                    let j = choose|j: int|
                        0 <= j < before.len() && (#[trigger] before[j]).0@ == after[n].0@;
                    assert(before[j].1 != after[n].1);
                }
            }
        }
    }
}

proof fn lemma_new_stays(
    before: Seq<(String, u64)>,
    after: Seq<(String, u64)>,
    change: Seq<char>,
)
    requires
        after.len() > 0,
        is_new(before, after.drop_last(), change),
    ensures
        is_new(before, after, change),
{
    let rest = after.drop_last();
    if exists|i: int|
        0 <= i < rest.len() && change == "+"@ + (#[trigger] rest[i]).0@ && !has_tool(
            before,
            rest[i].0@,
        ) {
        let i = choose|i: int|
            0 <= i < rest.len() && change == "+"@ + (#[trigger] rest[i]).0@ && !has_tool(
                before,
                rest[i].0@,
            );
        assert(after[i] == rest[i]);
    } else {
        let (i, j) = choose|i: int, j: int|
            0 <= i < rest.len() && 0 <= j < before.len() && change == "~"@ + (
            #[trigger] rest[i]).0@ && (#[trigger] before[j]).0@ == rest[i].0@ && before[j].1
                != rest[i].1;
        assert(after[i] == rest[i]);
    }
}

proof fn lemma_gone(before: Seq<(String, u64)>, after: Seq<(String, u64)>)
    requires
        names_differ(after),
    ensures
        forall|j: int|
            0 <= j < before.len() && !has_tool(after, (#[trigger] before[j]).0@) ==> gone_tools(
                before,
                after,
            ).contains("-"@ + before[j].0@),
        forall|c: int|
            0 <= c < gone_tools(before, after).len() ==> is_gone(
                before,
                after,
                #[trigger] gone_tools(before, after)[c],
            ),
    decreases before.len(),
{
    if before.len() > 0 {
        let rest = before.drop_last();
        let n = rest.len() as int;
        lemma_gone(rest, after);
        lemma_tool_hash(after, before.last().0@);
        let changes = gone_tools(before, after);
        let fewer = gone_tools(rest, after);
        assert forall|j: int|
            0 <= j < before.len() && !has_tool(after, (#[trigger] before[j]).0@) implies
            changes.contains("-"@ + before[j].0@) by {
            if j < n {
                assert(rest[j] == before[j]);
                let t = "-"@ + rest[j].0@;
                assert(fewer.contains(t));
                let c = choose|c: int| 0 <= c < fewer.len() && fewer[c] == t;
                assert(changes[c] == t);
            } else {
                assert(changes.last() == "-"@ + before[j].0@);
            }
        }
        assert forall|c: int| 0 <= c < changes.len() implies is_gone(
            before,
            after,
            #[trigger] changes[c],
        ) by {
            if c < fewer.len() {
                assert(changes[c] == fewer[c]);
                assert(is_gone(rest, after, fewer[c]));
                let j = choose|j: int|
                    0 <= j < rest.len() && fewer[c] == "-"@ + (#[trigger] rest[j]).0@ && !has_tool(
                        after,
                        rest[j].0@,
                    );
                assert(before[j] == rest[j]);
            } else {
                assert(before[n] == before.last());
            }
        }
    }
}

/// What is said of a change of tools names every tool that was added, edited or
/// taken away, with a sign before it, and no other. Where there are none it is
/// the order, and behind the twelfth the rest is counted.
pub proof fn every_changed_tool_is_named(
    before: &Vec<(String, u64)>,
    after: &Vec<(String, u64)>,
    change: String,
)
    requires
        names_differ(before@),
        names_differ(after@),
        call_ensures(describe_tool_change, (before, after), change),
    ensures
        exists|changes: Seq<Seq<char>>| #[trigger]
            tells_changes(before@, after@, changes) && (changes.len() == 0 ==> change@ == "order"@)
                && (0 < changes.len() <= 12 ==> change@ == text::joined_by(changes, ","@)) && (
            changes.len() > 12 ==> change@ == text::joined_by(changes.take(12), ","@) + ",…"@
                + text::decimal((changes.len() - 12) as nat) + " more"@),
{
    let new = new_tools(before@, after@);
    let gone = gone_tools(before@, after@);
    let changes = new + gone;
    lemma_new(before@, after@);
    lemma_gone(before@, after@);
    assert forall|t: Seq<char>| new.contains(t) || gone.contains(t) implies
        #[trigger] changes.contains(t) by {
        if new.contains(t) {
            let c = choose|c: int| 0 <= c < new.len() && new[c] == t;
            assert(changes[c] == t);
        } else {
            let c = choose|c: int| 0 <= c < gone.len() && gone[c] == t;
            assert(changes[new.len() + c] == t);
        }
    }
    assert forall|c: int| 0 <= c < changes.len() implies is_new(
        before@,
        after@,
        #[trigger] changes[c],
    ) || is_gone(before@, after@, changes[c]) by {
        if c < new.len() {
            assert(changes[c] == new[c]);
        } else {
            assert(changes[c] == gone[c - new.len()]);
        }
    }
    assert(tells_changes(before@, after@, changes));
}

/// Forgetting a session takes away what is kept under it in any scope, and
/// nothing else.
pub proof fn a_session_is_forgotten_in_every_scope(
    before: PrefixLog,
    after: PrefixLog,
    session: Seq<char>,
    scope: Seq<char>,
    key: Seq<char>,
)
    requires
        is_forgotten(before, after, session),
    ensures
        !after.last@.contains_key(scope + "|"@ + session),
        (forall|scope: Seq<char>| key != #[trigger] (scope + "|"@ + session)) ==> after.previous(
            key,
        ) == before.previous(key),
{
    let gone = scope + "|"@ + session;
    let suffix = "|"@ + session;
    assert(gone =~= scope + suffix);
    assert(gone.subrange(gone.len() - suffix.len(), gone.len() as int) =~= suffix);
    if text::strip_suffix(key, suffix) is Some {
        let start = text::strip_suffix(key, suffix)->0;
        assert(key =~= start + suffix);
        assert(start + suffix =~= start + "|"@ + session);
    }
}

} // verus!
