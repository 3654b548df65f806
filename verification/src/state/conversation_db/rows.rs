//! The rows of the tables.
//!
//! A row is plain data, and contracts speak of rows as they are. Where two
//! texts are compared it is by what they hold.

use vstd::prelude::*;

verus! {

#[derive(Debug, Clone, Copy, PartialEq, Eq, Structural)]
pub enum TurnStatus {
    Running,
    Completed,
    Interrupted,
}

#[derive(Debug, Clone, Copy, PartialEq, Eq, Structural)]
pub enum SegmentStatus {
    Running,
    Completed,
    Interrupted,
    /// Its generation was replaced by a later one.
    Superseded,
}

#[derive(Debug, Clone, Copy, PartialEq, Eq, Structural)]
pub enum PromptStatus {
    Queued,
    Consumed,
}

/// What a session is for.
#[derive(Debug, Clone, Copy, PartialEq, Eq, Structural)]
pub enum SessionKind {
    User,
    Subagent,
    /// One question, one answer.
    Ask,
}

#[derive(Debug)]
pub struct SessionRow {
    pub session_id: String,
    pub kind: SessionKind,
    pub parent_session_id: Option<String>,
    /// In seconds since the Unix epoch.
    pub updated_at: i64,
    /// When a turn last ended, in seconds since the Unix epoch.
    pub last_request_at: Option<i64>,
}

#[derive(Debug)]
pub struct TurnRow {
    pub turn_id: String,
    pub session_id: String,
    pub seq: i64,
    pub user_content: String,
    pub display_content: String,
    pub user_timestamp: String,
    pub assistant_content: String,
    pub assistant_reasoning: Option<String>,
    pub assistant_provider_id: Option<String>,
    pub assistant_model: Option<String>,
    pub assistant_timestamp: Option<String>,
    pub status: TurnStatus,
    pub tool_reports: String,
    pub owner_pid: Option<i64>,
    pub queue_session_id: Option<String>,
    pub workspace: Option<String>,
    /// How often the turn was redone.
    pub revision: i64,
    pub hidden: bool,
    pub is_summary: bool,
    pub token_total: i64,
    pub token_prompt: i64,
    pub token_cache_read: i64,
    pub token_usage_estimated: bool,
    /// How full the context was after the last request, by the provider.
    pub token_context_end: Option<i64>,
    pub generation_tokens: i64,
    pub generation_ms: i64,
    pub context_messages: String,
    pub tool_flow: Option<String>,
}

/// A stretch of a turn's journal.
#[derive(Debug)]
pub struct SegmentRow {
    pub turn_id: String,
    pub revision: i64,
    pub segment_index: i64,
    pub status: SegmentStatus,
    pub started_at: String,
    pub finished_at: Option<String>,
}

/// Something that happened in a turn.
#[derive(Debug)]
pub struct EventRow {
    pub turn_id: String,
    pub revision: i64,
    pub segment_index: i64,
    pub kind: String,
    pub call_id: Option<String>,
    pub name: Option<String>,
    pub text_payload: Option<String>,
    pub blob_payload: Option<Vec<u8>>,
    pub ok: Option<bool>,
    pub created_at: String,
}

/// A message that came in while a turn was running.
#[derive(Debug)]
pub struct PromptRow {
    pub prompt_id: String,
    pub seq: i64,
    pub session_id: String,
    pub queue_session_id: Option<String>,
    pub owner_pid: Option<i64>,
    pub status: PromptStatus,
    pub content: String,
    pub display_content: String,
    pub context_content: Option<String>,
    pub preceding_assistant_content: Option<String>,
    pub preceding_assistant_reasoning: Option<String>,
    pub turn_id: Option<String>,
    pub consumed_at: Option<String>,
}

/// A question that a turn asked and what was answered.
#[derive(Debug)]
pub struct QuestionRow {
    pub turn_id: String,
    pub exchange_index: i64,
    pub payload: String,
}

/// An image or a file that a turn made. The columns beside the turn are kept
/// as one text.
#[derive(Debug)]
pub struct AssetRow {
    pub turn_id: String,
    pub record: String,
}

/// A report of a tool that a turn called.
#[derive(Debug)]
pub struct ToolReportRow {
    pub turn_id: String,
    pub report: String,
}

/// One thing that a turn's tools touched: a file that was read, something that
/// was remembered.
#[derive(Debug)]
pub struct FootprintRow {
    pub turn_id: String,
    pub kind: String,
    pub item: String,
}

/// What is loaded in a session.
#[derive(Debug)]
pub struct LoadedItemRow {
    pub session_id: String,
    pub item: LoadedItem,
}

#[derive(Debug)]
pub struct LoadedItem {
    pub kind: String,
    pub name: String,
    pub source_turn_id: Option<String>,
    pub created_at: String,
    pub updated_at: String,
}

/// Where a turn can be redone from.
#[derive(Debug)]
pub struct CheckpointRow {
    pub turn_id: String,
    pub checkpoint: Checkpoint,
}

#[derive(Debug)]
pub struct Checkpoint {
    pub version: i64,
    pub batch_prompt_ids: String,
    pub payload: Option<Vec<u8>>,
    pub unavailable_reason: Option<String>,
    pub created_at: String,
}

/// What a turn was before it was redone.
#[derive(Debug)]
pub struct BackupRow {
    pub turn_id: String,
    pub revision: i64,
    pub backup: TurnRedoBackup,
}

#[derive(Debug)]
pub struct TurnRedoBackup {
    pub user_content: String,
    pub display_content: String,
    pub assistant_content: String,
    pub assistant_reasoning: Option<String>,
    pub assistant_provider_id: Option<String>,
    pub assistant_model: Option<String>,
    pub assistant_timestamp: Option<String>,
    pub status: TurnStatus,
    pub tool_reports: String,
    pub owner_pid: Option<i64>,
    pub queue_session_id: Option<String>,
    pub token_total: i64,
    pub token_prompt: i64,
    pub token_cache_read: i64,
    pub token_usage_estimated: bool,
    pub loaded_items: Vec<LoadedItem>,
    pub consumed_prompt_ids: Vec<String>,
    pub checkpoint: Option<Checkpoint>,
    pub followup_content: Option<String>,
    pub followup_display_content: Option<String>,
    pub followup_context_content: Option<String>,
}

/// A file that a user attached, to a run that has not started or to a turn.
#[derive(Debug)]
pub struct AttachmentRow {
    pub attachment_id: String,
    pub file_name: String,
    pub session_id: String,
    pub run_id: Option<String>,
    pub turn_id: Option<String>,
}

/// One thing that a finished turn showed.
#[derive(Debug)]
pub enum ReplayEntry {
    /// A stretch of the answer.
    Text(String),
    /// Anything else, as its own text.
    Other(String),
}

/// What a finished turn showed, in order.
#[derive(Debug)]
pub struct ReplayRow {
    pub turn_id: String,
    pub entries: Vec<ReplayEntry>,
}

/// The tokens a turn used.
#[derive(Debug, Clone, Copy, PartialEq, Eq, Structural)]
pub struct TurnTokens {
    pub total: u64,
    pub prompt: u64,
    pub cache_read: u64,
}

impl TurnTokens {
    /// No tokens at all.
    pub fn none() -> (tokens: Self)
        ensures
            tokens == (TurnTokens { total: 0, prompt: 0, cache_read: 0 }),
    {
        TurnTokens { total: 0, prompt: 0, cache_read: 0 }
    }
}

/// A moment as it is written in rows: RFC 3339 text, and seconds since the
/// Unix epoch.
#[derive(Debug)]
pub struct Stamp {
    pub text: String,
    pub secs: i64,
}

/// Why a change was turned down. What was there before is still there.
#[derive(Debug, Clone, Copy, PartialEq, Eq, Structural)]
pub enum DbError {
    /// A turn of that id is there already.
    DuplicateTurn,
    /// There is no such session.
    UnknownSession,
    /// There is no such turn.
    UnknownTurn,
    /// There is no number after the last turn of the session.
    SequenceFull,
    /// The turn changed before it could be completed.
    TurnChanged,
    /// The redo generation changed before it could be completed.
    RedoChanged,
    /// A backup belongs to a turn that is not running.
    NotRunning,
    /// A text event exceeds the 64 MiB limit.
    TextEventTooLong,
    /// A binary event exceeds the 8 MiB limit.
    BlobEventTooLong,
    /// The journal generation is no longer active.
    JournalInactive,
    /// The segment changed before it was superseded.
    SegmentChanged,
    /// The conversation changed before turns could be deleted.
    ConversationChanged,
    /// The loaded tools changed while context was popped.
    LoadedToolsChanged,
    /// The tokens of the session do not fit a number.
    TokensOverflow,
}

/// A copy of an optional text.
pub fn copy_opt(s: &Option<String>) -> (r: Option<String>)
    ensures
        r == *s,
{
    match s {
        Some(s) => Some(s.clone()),
        None => None,
    }
}

impl TurnRow {
    /// A copy of the row.
    pub fn copy(&self) -> (r: TurnRow)
        ensures
            r == *self,
    {
        TurnRow {
            turn_id: self.turn_id.clone(),
            session_id: self.session_id.clone(),
            seq: self.seq,
            user_content: self.user_content.clone(),
            display_content: self.display_content.clone(),
            user_timestamp: self.user_timestamp.clone(),
            assistant_content: self.assistant_content.clone(),
            assistant_reasoning: copy_opt(&self.assistant_reasoning),
            assistant_provider_id: copy_opt(&self.assistant_provider_id),
            assistant_model: copy_opt(&self.assistant_model),
            assistant_timestamp: copy_opt(&self.assistant_timestamp),
            status: self.status,
            tool_reports: self.tool_reports.clone(),
            owner_pid: self.owner_pid,
            queue_session_id: copy_opt(&self.queue_session_id),
            workspace: copy_opt(&self.workspace),
            revision: self.revision,
            hidden: self.hidden,
            is_summary: self.is_summary,
            token_total: self.token_total,
            token_prompt: self.token_prompt,
            token_cache_read: self.token_cache_read,
            token_usage_estimated: self.token_usage_estimated,
            token_context_end: self.token_context_end,
            generation_tokens: self.generation_tokens,
            generation_ms: self.generation_ms,
            context_messages: self.context_messages.clone(),
            tool_flow: copy_opt(&self.tool_flow),
        }
    }
}

impl QuestionRow {
    /// A copy of the row.
    pub fn copy(&self) -> (r: QuestionRow)
        ensures
            r == *self,
    {
        QuestionRow {
            turn_id: self.turn_id.clone(),
            exchange_index: self.exchange_index,
            payload: self.payload.clone(),
        }
    }
}

impl AssetRow {
    /// A copy of the row.
    pub fn copy(&self) -> (r: AssetRow)
        ensures
            r == *self,
    {
        AssetRow { turn_id: self.turn_id.clone(), record: self.record.clone() }
    }
}

/// A copy of what a turn showed.
pub fn copy_entries(entries: &Vec<ReplayEntry>) -> (r: Vec<ReplayEntry>)
    ensures
        r@ == entries@,
{
    let mut out: Vec<ReplayEntry> = Vec::new();
    let mut i: usize = 0;
    while i < entries.len()
        invariant
            i <= entries@.len(),
            out@ =~= entries@.take(i as int),
        decreases entries@.len() - i,
    {
        match &entries[i] {
            ReplayEntry::Text(text) => out.push(ReplayEntry::Text(text.clone())),
            ReplayEntry::Other(text) => out.push(ReplayEntry::Other(text.clone())),
        }
        i += 1;
    }
    out
}

} // verus!
