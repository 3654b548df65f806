//! What the model calls used: sums over a lifetime, and each call.
//!
//! The ledger belongs to the machine and is shared by all accounts.

use vstd::prelude::*;

pub mod db;
pub mod stats;
pub mod tally;

verus! {

/// What one call used.
#[derive(Debug, Clone, Copy, PartialEq, Eq, Structural)]
pub struct Usage {
    pub prompt_tokens: u64,
    pub completion_tokens: u64,
    /// Zero where the provider did not say.
    pub total_tokens: u64,
    /// The part of the prompt that was read from the provider's cache.
    pub cache_read_tokens: u64,
    pub cache_write_tokens: u64,
    pub reasoning_tokens: u64,
    /// Whether the provider says anything about its cache.
    pub cache_reported: bool,
}

/// One call.
#[derive(Debug)]
pub struct UsageRecord {
    /// In seconds since the Unix epoch.
    pub ts: i64,
    /// Where the call came from. Empty is the agent.
    pub src: String,
    pub provider: String,
    pub model: String,
    pub prompt: u64,
    pub completion: u64,
    pub total: u64,
    pub cache_read: u64,
    pub cache_write: u64,
    pub aux: bool,
    /// What kind of call it was within its source. Empty is none in
    /// particular.
    pub kind: String,
    /// Whose call it was. Empty is the administrator.
    pub acct: String,
}

impl Usage {
    /// No use at all.
    pub fn new() -> (usage: Self)
        ensures
            usage == (Usage {
                prompt_tokens: 0,
                completion_tokens: 0,
                total_tokens: 0,
                cache_read_tokens: 0,
                cache_write_tokens: 0,
                reasoning_tokens: 0,
                cache_reported: false,
            }),
    {
        Usage {
            prompt_tokens: 0,
            completion_tokens: 0,
            total_tokens: 0,
            cache_read_tokens: 0,
            cache_write_tokens: 0,
            reasoning_tokens: 0,
            cache_reported: false,
        }
    }

    /// What the call used in all: what the provider says, else the prompt and
    /// the answer.
    pub open spec fn effective_total(self) -> int {
        if self.total_tokens == 0 {
            self.prompt_tokens + self.completion_tokens
        } else {
            self.total_tokens as int
        }
    }

    /// Whether what the call used in all fits a counter.
    pub open spec fn valid(self) -> bool {
        self.effective_total() <= u64::MAX
    }

    /// What the call used in all.
    pub fn effective_total_tokens(&self) -> (total: u64)
        requires
            self.valid(),
        ensures
            total == self.effective_total(),
    {
        if self.total_tokens == 0 {
            self.prompt_tokens + self.completion_tokens
        } else {
            self.total_tokens
        }
    }
}

impl UsageRecord {
    /// A copy of the record.
    pub fn copy(&self) -> (r: UsageRecord)
        ensures
            r == *self,
    {
        UsageRecord {
            ts: self.ts,
            src: self.src.clone(),
            provider: self.provider.clone(),
            model: self.model.clone(),
            prompt: self.prompt,
            completion: self.completion,
            total: self.total,
            cache_read: self.cache_read,
            cache_write: self.cache_write,
            aux: self.aux,
            kind: self.kind.clone(),
            acct: self.acct.clone(),
        }
    }
}

/// Where a call came from, as far as that is known.
#[derive(Debug, Clone, Copy)]
pub struct UsageMeta<'a> {
    pub source: &'a str,
    pub provider: Option<&'a str>,
    pub model: Option<&'a str>,
    /// What kind of call it was within its source.
    pub kind: Option<&'a str>,
}

/// Deciding whether to answer a message that was not addressed to the agent.
pub const USAGE_KIND_JUDGE: &'static str = "judge";

/// Updating how much the agent likes someone.
pub const USAGE_KIND_AFFECTION: &'static str = "affection";

/// Deciding who may join a group.
pub const USAGE_KIND_GROUP_JOIN: &'static str = "group_join";

/// The sums over a lifetime.
#[derive(Debug, Clone, Copy, PartialEq, Eq, Structural)]
pub struct UsageState {
    pub requests: u64,
    pub prompt_tokens: u64,
    pub completion_tokens: u64,
    pub total_tokens: u64,
    pub conversation_tokens: u64,
    pub cache_read_tokens: u64,
    pub cache_write_tokens: u64,
    pub reasoning_tokens: u64,
    pub last_usage: Option<Usage>,
    pub last_conversation_usage: Option<Usage>,
}

/// What the sums are.
#[derive(Debug, Clone, Copy, PartialEq, Eq, Structural)]
pub struct UsageSnapshot {
    pub requests: u64,
    pub prompt_tokens: u64,
    pub completion_tokens: u64,
    pub total_tokens: u64,
    pub conversation_tokens: u64,
    pub cache_read_tokens: u64,
    pub cache_write_tokens: u64,
    pub reasoning_tokens: u64,
    pub last_usage: Option<Usage>,
    pub last_conversation_usage: Option<Usage>,
}

impl UsageState {
    /// Sums before the first call.
    pub open spec fn zero() -> UsageState {
        UsageState {
            requests: 0,
            prompt_tokens: 0,
            completion_tokens: 0,
            total_tokens: 0,
            conversation_tokens: 0,
            cache_read_tokens: 0,
            cache_write_tokens: 0,
            reasoning_tokens: 0,
            last_usage: None,
            last_conversation_usage: None,
        }
    }

    /// Sums before the first call.
    pub fn new() -> (state: Self)
        ensures
            state == UsageState::zero(),
    {
        UsageState {
            requests: 0,
            prompt_tokens: 0,
            completion_tokens: 0,
            total_tokens: 0,
            conversation_tokens: 0,
            cache_read_tokens: 0,
            cache_write_tokens: 0,
            reasoning_tokens: 0,
            last_usage: None,
            last_conversation_usage: None,
        }
    }

    /// What the sums are. Where no call of a conversation is known the last
    /// call stands in for it.
    pub open spec fn as_snapshot(self) -> UsageSnapshot {
        UsageSnapshot {
            requests: self.requests,
            prompt_tokens: self.prompt_tokens,
            completion_tokens: self.completion_tokens,
            total_tokens: self.total_tokens,
            conversation_tokens: self.conversation_tokens,
            cache_read_tokens: self.cache_read_tokens,
            cache_write_tokens: self.cache_write_tokens,
            reasoning_tokens: self.reasoning_tokens,
            last_usage: self.last_usage,
            last_conversation_usage: match self.last_conversation_usage {
                Some(usage) => Some(usage),
                None => self.last_usage,
            },
        }
    }

    /// What the sums are.
    pub fn snapshot(self) -> (snapshot: UsageSnapshot)
        ensures
            snapshot == self.as_snapshot(),
    {
        let last_conversation_usage = match self.last_conversation_usage {
            Some(usage) => Some(usage),
            None => self.last_usage,
        };
        UsageSnapshot {
            requests: self.requests,
            prompt_tokens: self.prompt_tokens,
            completion_tokens: self.completion_tokens,
            total_tokens: self.total_tokens,
            conversation_tokens: self.conversation_tokens,
            cache_read_tokens: self.cache_read_tokens,
            cache_write_tokens: self.cache_write_tokens,
            reasoning_tokens: self.reasoning_tokens,
            last_usage: self.last_usage,
            last_conversation_usage,
        }
    }
}

} // verus!
