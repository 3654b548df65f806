//! Bringing the schema of a database up to date.
//!
//! A database records the version of its schema. Each migration runs in a
//! transaction of its own, which records the new version, so that one that is
//! interrupted runs again the next time.

use vstd::prelude::*;

use crate::table;
use crate::text::{self, is_listed, push_decimal, push_signed};

pub mod named;

verus! {

/// A step from one version of the schema to the next.
#[derive(Debug, Clone, Copy)]
pub struct Migration {
    pub version: i64,
    pub name: &'static str,
}

/// The version that all migrations lead to.
pub const LATEST_VERSION: i64 = 40;

/// The names of the migrations. The first leads to version 1.
pub const MIGRATION_NAMES: [&'static str; 40] = [
    "baseline",
    "sessions",
    "platform_sessions_and_plugin_state",
    "platform_meme_refs",
    "user_attachments",
    "turn_redo_checkpoints",
    "turn_redo_backups",
    "artifact_assets",
    "platform_access_control",
    "turn_generation_journal",
    "session_model_override",
    "turn_context_messages",
    "compact_hidden_turns",
    "tool_reports_archive",
    "session_last_request_at",
    "turn_tool_footprint",
    "turn_replay_journal",
    "turn_cache_tokens",
    "session_cache_tokens",
    "turn_tool_flow",
    "rename_default_session",
    "session_goals",
    "retire_session_archiving",
    "retire_session_goals",
    "tool_reports_child_table",
    "session_goals",
    "shared_files",
    "session_sort_key",
    "attachment_files",
    "turn_inline_media",
    "queued_prompt_context_messages",
    "sponsor_records",
    "compact_v3",
    "accounts",
    "generation_speed",
    "sandbox_root",
    "sandbox_read_all",
    "session_context_tokens",
    "subagent_sessions",
    "sandbox_toggle",
];

/// All migrations, in order.
pub open spec fn all_migrations() -> Seq<Migration> {
    MIGRATION_NAMES@.map(|i: int, name: &'static str| Migration { version: (i + 1) as i64, name })
}

/// All migrations, in order.
pub fn migrations() -> (list: Vec<Migration>)
    ensures
        list@ == all_migrations(),
        ascend(list@),
        latest_of(list@) == LATEST_VERSION,
{
    let names: [&'static str; 40] = MIGRATION_NAMES;
    let mut list: Vec<Migration> = Vec::new();
    let mut i: usize = 0;
    while i < 40
        invariant
            i <= 40,
            names == MIGRATION_NAMES,
            list@ =~= all_migrations().take(i as int),
        decreases 40 - i,
    {
        list.push(Migration { version: i as i64 + 1, name: names[i] });
        i += 1;
    }
    assert(all_migrations().take(40) =~= all_migrations());
    list
}

/// Later migrations lead to later versions.
pub open spec fn ascend(list: Seq<Migration>) -> bool {
    forall|i: int, j: int|
        0 <= i < j < list.len() ==> (#[trigger] list[i]).version < (#[trigger] list[j]).version
}

/// The version that migrations lead to.
pub open spec fn latest_of(list: Seq<Migration>) -> i64 {
    if list.len() == 0 {
        0
    } else {
        list.last().version
    }
}

/// The migrations that a database of a version still needs.
pub open spec fn newer_than(list: Seq<Migration>, version: i64) -> Seq<Migration> {
    list.filter(|m: Migration| m.version > version)
}

/// Why a database could not be brought up to date. A cause is what was said of
/// the operation that failed.
#[derive(Debug, PartialEq, Eq)]
pub enum MigrationError {
    /// The schema is of a later version than is known.
    Newer { current: i64, latest: i64 },
    /// A migration left references that lead nowhere.
    Introduced { name: &'static str, before: u64, after: u64 },
    Begin { name: &'static str, cause: String },
    Apply { name: &'static str, cause: String },
    Commit { name: &'static str, cause: String },
    Other { cause: String },
}

impl MigrationError {
    /// What is said of the error.
    pub open spec fn said(self) -> Seq<char> {
        match self {
            MigrationError::Newer { current, latest } => "conversation.db schema version "@
                + text::signed_decimal(current) + " is newer than this build supports ("@
                + text::signed_decimal(latest) + "); refusing to open"@,
            MigrationError::Introduced { name, before, after } => "schema migration '"@ + name@
                + "' introduced "@ + text::decimal((after - before) as nat)
                + " foreign-key violations (before "@ + text::decimal(before as nat) + ", after "@
                + text::decimal(after as nat) + "); rolling back"@,
            MigrationError::Begin { name, .. } => "failed to begin migration '"@ + name@ + "'"@,
            MigrationError::Apply { name, .. } => "schema migration '"@ + name@ + "' failed"@,
            MigrationError::Commit { name, .. } => "failed to commit migration '"@ + name@ + "'"@,
            MigrationError::Other { cause } => cause@,
        }
    }

    /// What is said of the error.
    pub fn message(&self) -> (message: String)
        requires
            self matches MigrationError::Introduced { before, after, .. } ==> *before <= *after,
        ensures
            message@ == self.said(),
    {
        match self {
            MigrationError::Newer { current, latest } => {
                let mut message = "conversation.db schema version ".to_owned();
                push_signed(&mut message, *current);
                message.append(" is newer than this build supports (");
                push_signed(&mut message, *latest);
                message.append("); refusing to open");
                message
            },
            MigrationError::Introduced { name, before, after } => {
                let mut message = "schema migration '".to_owned();
                message.append(name);
                message.append("' introduced ");
                push_decimal(&mut message, *after - *before);
                message.append(" foreign-key violations (before ");
                push_decimal(&mut message, *before);
                message.append(", after ");
                push_decimal(&mut message, *after);
                message.append("); rolling back");
                message
            },
            MigrationError::Begin { name, .. } => {
                let mut message = "failed to begin migration '".to_owned();
                message.append(name);
                message.append("'");
                message
            },
            MigrationError::Apply { name, .. } => {
                let mut message = "schema migration '".to_owned();
                message.append(name);
                message.append("' failed");
                message
            },
            MigrationError::Commit { name, .. } => {
                let mut message = "failed to commit migration '".to_owned();
                message.append(name);
                message.append("'");
                message
            },
            MigrationError::Other { cause } => cause.clone(),
        }
    }
}

/// What a run does next.
#[derive(Debug, Clone, Copy, PartialEq, Eq, Structural)]
pub enum RunPhase {
    /// Stops the enforcement of references: rebuilding a table would delete
    /// what refers to it.
    Release,
    /// Begins the transaction of the next migration.
    Begin,
    /// Counts the references that lead nowhere.
    CountBefore,
    /// Runs the migration.
    Apply,
    /// Counts the references that lead nowhere again.
    CountAfter,
    /// Records the version.
    Record,
    /// Commits the transaction.
    Commit,
    /// Gives the transaction up.
    RollBack,
    /// Enforces references again.
    Restore,
    /// Nothing.
    Finished,
}

/// What became of what a run did.
#[derive(Debug)]
pub enum RunEvent {
    Done,
    Counted(u64),
    Failed(String),
}

/// Bringing a database up to date.
#[derive(Debug)]
pub struct MigrationRun {
    /// What the database needed when the run started.
    pub pending: Vec<Migration>,
    /// How many of them were committed.
    pub done: usize,
    /// The version that the database records.
    pub version: i64,
    pub phase: RunPhase,
    /// How many references led nowhere before the migration ran.
    pub before: u64,
    pub failure: Option<MigrationError>,
}

/// Whether a migration is being run.
pub open spec fn is_running(phase: RunPhase) -> bool {
    match phase {
        RunPhase::Begin => true,
        RunPhase::CountBefore => true,
        RunPhase::Apply => true,
        RunPhase::CountAfter => true,
        RunPhase::Record => true,
        RunPhase::Commit => true,
        _ => false,
    }
}

/// Whether something can become of what a run does next.
pub open spec fn is_expected(phase: RunPhase, event: RunEvent) -> bool {
    match event {
        RunEvent::Failed(_) => true,
        RunEvent::Counted(_) => phase == RunPhase::CountBefore || phase == RunPhase::CountAfter,
        RunEvent::Done => phase != RunPhase::CountBefore && phase != RunPhase::CountAfter,
    }
}

impl MigrationRun {
    /// The migrations lead upwards from the version that the database records,
    /// which is that of the last one that was committed. A run that stops
    /// without a failure has committed all.
    pub open spec fn wf(&self) -> bool {
        &&& ascend(self.pending@)
        &&& self.done <= self.pending@.len()
        &&& self.done > 0 ==> self.version == self.pending@[self.done - 1].version
        &&& forall|k: int|
            self.done <= k < self.pending@.len() ==> (#[trigger] self.pending@[k]).version
                > self.version
        &&& is_running(self.phase) ==> self.done < self.pending@.len() && self.failure is None
        &&& self.phase == RunPhase::Release ==> self.done == 0 && self.failure is None
        &&& self.phase == RunPhase::RollBack ==> self.failure is Some
        &&& (self.phase == RunPhase::Restore || self.phase == RunPhase::Finished)
            && self.failure is None ==> self.done == self.pending@.len()
    }

    /// The migration that is being run.
    pub open spec fn current(&self) -> Migration {
        self.pending@[self.done as int]
    }

    /// The run after an operation failed. What is in a transaction is given
    /// up, and references are enforced again unless they still are. The first
    /// failure counts.
    pub open spec fn failed(self, cause: String) -> MigrationRun {
        let name = self.current().name;
        match self.phase {
            RunPhase::Release => MigrationRun {
                phase: RunPhase::Finished,
                failure: Some(MigrationError::Other { cause }),
                ..self
            },
            RunPhase::Begin => MigrationRun {
                phase: RunPhase::Restore,
                failure: Some(MigrationError::Begin { name, cause }),
                ..self
            },
            RunPhase::Apply => MigrationRun {
                phase: RunPhase::RollBack,
                failure: Some(MigrationError::Apply { name, cause }),
                ..self
            },
            RunPhase::Commit => MigrationRun {
                phase: RunPhase::RollBack,
                failure: Some(MigrationError::Commit { name, cause }),
                ..self
            },
            RunPhase::RollBack => MigrationRun { phase: RunPhase::Restore, ..self },
            RunPhase::Restore => MigrationRun {
                phase: RunPhase::Finished,
                failure: match self.failure {
                    Some(failure) => Some(failure),
                    None => Some(MigrationError::Other { cause }),
                },
                ..self
            },
            RunPhase::Finished => self,
            _ => MigrationRun {
                phase: RunPhase::RollBack,
                failure: Some(MigrationError::Other { cause }),
                ..self
            },
        }
    }

    /// The run after what it did. A migration is given up where references
    /// lead nowhere that did not before; those that did before are not held
    /// against it.
    pub open spec fn after(self, event: RunEvent) -> MigrationRun {
        match event {
            RunEvent::Failed(cause) => self.failed(cause),
            RunEvent::Counted(count) => if self.phase == RunPhase::CountBefore {
                MigrationRun { phase: RunPhase::Apply, before: count, ..self }
            } else if count > self.before {
                MigrationRun {
                    phase: RunPhase::RollBack,
                    failure: Some(
                        MigrationError::Introduced {
                            name: self.current().name,
                            before: self.before,
                            after: count,
                        },
                    ),
                    ..self
                }
            } else {
                MigrationRun { phase: RunPhase::Record, ..self }
            },
            RunEvent::Done => match self.phase {
                RunPhase::Release => MigrationRun {
                    phase: if self.pending@.len() > 0 {
                        RunPhase::Begin
                    } else {
                        RunPhase::Restore
                    },
                    ..self
                },
                RunPhase::Begin => MigrationRun { phase: RunPhase::CountBefore, ..self },
                RunPhase::Apply => MigrationRun { phase: RunPhase::CountAfter, ..self },
                RunPhase::Record => MigrationRun { phase: RunPhase::Commit, ..self },
                RunPhase::Commit => MigrationRun {
                    done: (self.done + 1) as usize,
                    version: self.current().version,
                    phase: if self.done + 1 < self.pending@.len() {
                        RunPhase::Begin
                    } else {
                        RunPhase::Restore
                    },
                    ..self
                },
                RunPhase::RollBack => MigrationRun { phase: RunPhase::Restore, ..self },
                RunPhase::Restore => MigrationRun { phase: RunPhase::Finished, ..self },
                _ => self,
            },
        }
    }

    /// Brings a database up to date that records the version `current`. One of
    /// a later version than is known is refused.
    pub fn start(current: i64, list: &Vec<Migration>) -> (run: Result<Self, MigrationError>)
        requires
            ascend(list@),
        ensures
            match run {
                Ok(run) => {
                    &&& current <= latest_of(list@)
                    &&& run.wf()
                    &&& run.pending@ == newer_than(list@, current)
                    &&& run.done == 0
                    &&& run.version == current
                    &&& run.failure is None
                    &&& run.phase == (if current == latest_of(list@) {
                        RunPhase::Finished
                    } else {
                        RunPhase::Release
                    })
                },
                Err(error) => current > latest_of(list@) && error == (MigrationError::Newer {
                    current,
                    latest: latest_of(list@),
                }),
            },
    {
        let latest: i64 = if list.len() == 0 {
            0
        } else {
            list[list.len() - 1].version
        };
        if current > latest {
            return Err(MigrationError::Newer { current, latest });
        }
        let ghost keep = |m: Migration| m.version > current;
        let mut pending: Vec<Migration> = Vec::new();
        let mut i: usize = 0;
        proof {
            reveal(Seq::filter);
            assert(list@.take(0).filter(keep) =~= Seq::empty());
        }
        while i < list.len()
            invariant
                i <= list@.len(),
                keep == (|m: Migration| m.version > current),
                pending@ == list@.take(i as int).filter(keep),
            decreases list@.len() - i,
        {
            proof {
                table::lemma_filter_step(list@, keep, i as int);
            }
            if list[i].version > current {
                pending.push(list[i]);
            }
            i += 1;
        }
        proof {
            assert(list@.take(list@.len() as int) =~= list@);
            lemma_newer(list@, current);
        }
        let phase = if current == latest {
            RunPhase::Finished
        } else {
            RunPhase::Release
        };
        Ok(MigrationRun { pending, done: 0, version: current, phase, before: 0, failure: None })
    }

    /// Takes in what became of what the run did.
    pub fn advance(&mut self, event: RunEvent)
        requires
            old(self).wf(),
            is_expected(old(self).phase, event),
        ensures
            final(self).wf(),
            *final(self) == old(self).after(event),
    {
        match event {
            RunEvent::Failed(cause) => {
                self.fail(cause);
            },
            RunEvent::Counted(count) => {
                if self.phase == RunPhase::CountBefore {
                    self.before = count;
                    self.phase = RunPhase::Apply;
                } else if count > self.before {
                    let name = self.pending[self.done].name;
                    self.failure = Some(
                        MigrationError::Introduced { name, before: self.before, after: count },
                    );
                    self.phase = RunPhase::RollBack;
                } else {
                    self.phase = RunPhase::Record;
                }
            },
            RunEvent::Done => match self.phase {
                RunPhase::Release => {
                    self.phase = if self.pending.len() > 0 {
                        RunPhase::Begin
                    } else {
                        RunPhase::Restore
                    };
                },
                RunPhase::Begin => {
                    self.phase = RunPhase::CountBefore;
                },
                RunPhase::Apply => {
                    self.phase = RunPhase::CountAfter;
                },
                RunPhase::Record => {
                    self.phase = RunPhase::Commit;
                },
                RunPhase::Commit => {
                    let total: usize = self.pending.len();
                    self.version = self.pending[self.done].version;
                    self.done = self.done + 1;
                    self.phase = if self.done < total {
                        RunPhase::Begin
                    } else {
                        RunPhase::Restore
                    };
                },
                RunPhase::RollBack => {
                    self.phase = RunPhase::Restore;
                },
                RunPhase::Restore => {
                    self.phase = RunPhase::Finished;
                },
                _ => {},
            },
        }
    }

    /// Takes in that an operation failed.
    fn fail(&mut self, cause: String)
        requires
            old(self).wf(),
        ensures
            final(self).wf(),
            *final(self) == old(self).failed(cause),
    {
        match self.phase {
            RunPhase::Release => {
                self.failure = Some(MigrationError::Other { cause });
                self.phase = RunPhase::Finished;
            },
            RunPhase::Begin => {
                let name = self.pending[self.done].name;
                self.failure = Some(MigrationError::Begin { name, cause });
                self.phase = RunPhase::Restore;
            },
            RunPhase::Apply => {
                let name = self.pending[self.done].name;
                self.failure = Some(MigrationError::Apply { name, cause });
                self.phase = RunPhase::RollBack;
            },
            RunPhase::Commit => {
                let name = self.pending[self.done].name;
                self.failure = Some(MigrationError::Commit { name, cause });
                self.phase = RunPhase::RollBack;
            },
            RunPhase::RollBack => {
                self.phase = RunPhase::Restore;
            },
            RunPhase::Restore => {
                if self.failure.is_none() {
                    self.failure = Some(MigrationError::Other { cause });
                }
                self.phase = RunPhase::Finished;
            },
            RunPhase::Finished => {},
            _ => {
                self.failure = Some(MigrationError::Other { cause });
                self.phase = RunPhase::RollBack;
            },
        }
    }
}

/// What adds a column to a table.
pub open spec fn alter_statement(
    table: Seq<char>,
    column: Seq<char>,
    definition: Seq<char>,
) -> Seq<char> {
    "ALTER TABLE "@ + table + " ADD COLUMN "@ + column + " "@ + definition
}

/// What adds a column to a table with these columns, unless it has it.
pub fn add_column_if_missing(
    columns: &Vec<String>,
    table: &str,
    column: &str,
    definition: &str,
) -> (statement: Option<String>)
    ensures
        match statement {
            Some(statement) => !text::listed(columns@, column@) && statement@ == alter_statement(
                table@,
                column@,
                definition@,
            ),
            None => text::listed(columns@, column@),
        },
{
    if is_listed(columns, column) {
        return None;
    }
    let mut statement = "ALTER TABLE ".to_owned();
    statement.append(table);
    statement.append(" ADD COLUMN ");
    statement.append(column);
    statement.append(" ");
    statement.append(definition);
    Some(statement)
}

/// Where the migrations that are still needed start.
proof fn lemma_newer_is_tail(list: Seq<Migration>, version: i64, from: int)
    requires
        ascend(list),
        0 <= from <= list.len(),
        forall|k: int| 0 <= k < from ==> (#[trigger] list[k]).version <= version,
        forall|k: int| from <= k < list.len() ==> (#[trigger] list[k]).version > version,
    ensures
        newer_than(list, version) == list.skip(from),
    decreases list.len(),
{
    reveal(Seq::filter);
    if list.len() > 0 {
        let less = list.drop_last();
        if from == list.len() {
            lemma_newer_is_tail(less, version, from - 1);
            assert(list.last().version <= version);
            assert(newer_than(list, version) =~= list.skip(from));
        } else {
            lemma_newer_is_tail(less, version, from);
            assert(list.last().version > version);
            assert(less.skip(from).push(list.last()) =~= list.skip(from));
        }
    } else {
        assert(newer_than(list, version) =~= list.skip(from));
    }
}

/// Where the migrations that a database needs start among all.
pub open spec fn first_newer(list: Seq<Migration>, version: i64, from: int) -> int
    decreases list.len() - from,
{
    if from >= list.len() {
        list.len() as int
    } else if list[from].version > version {
        from
    } else {
        first_newer(list, version, from + 1)
    }
}

/// Looking for the first one finds it.
proof fn lemma_first_newer(list: Seq<Migration>, version: i64, from: int)
    requires
        ascend(list),
        0 <= from <= list.len(),
        forall|k: int| 0 <= k < from ==> (#[trigger] list[k]).version <= version,
    ensures
        ({
            let first = first_newer(list, version, from);
            &&& from <= first <= list.len()
            &&& forall|k: int| 0 <= k < first ==> (#[trigger] list[k]).version <= version
            &&& forall|k: int| first <= k < list.len() ==> (#[trigger] list[k]).version > version
        }),
    decreases list.len() - from,
{
    if from < list.len() && list[from].version <= version {
        lemma_first_newer(list, version, from + 1);
    }
}

/// What is needed ascends, is newer, and is nothing only when the latest
/// version is reached.
proof fn lemma_newer(list: Seq<Migration>, version: i64)
    requires
        ascend(list),
    ensures
        ascend(newer_than(list, version)),
        forall|k: int|
            0 <= k < newer_than(list, version).len() ==> (#[trigger] newer_than(
                list,
                version,
            )[k]).version > version,
        version < latest_of(list) && list.len() > 0 ==> newer_than(list, version).len() > 0,
        version >= latest_of(list) ==> newer_than(list, version).len() == 0,
        newer_than(list, version).len() > 0 ==> newer_than(list, version).last() == list.last(),
{
    lemma_first_newer(list, version, 0);
    let first = first_newer(list, version, 0);
    lemma_newer_is_tail(list, version, first);
    let tail = list.skip(first);
    assert forall|i: int, j: int| 0 <= i < j < tail.len() implies (#[trigger] tail[i]).version < (
    #[trigger] tail[j]).version by {
        assert(list[first + i].version < list[first + j].version);
    }
    assert forall|k: int| 0 <= k < tail.len() implies (#[trigger] tail[k]).version > version by {
        assert(list[first + k].version > version);
    }
    if list.len() > 0 {
        assert(list[list.len() - 1] == list.last());
        if version < latest_of(list) {
            assert(first < list.len());
        }
    }
}

// ---------------------------------------------------------------------------
// Laws
// ---------------------------------------------------------------------------

/// A run that stops without a failure leaves the latest version, and one that
/// stops with a failure leaves that of the last migration it committed.
pub proof fn a_finished_run_is_up_to_date(list: Seq<Migration>, current: i64, run: MigrationRun)
    requires
        ascend(list),
        run.wf(),
        run.pending@ == newer_than(list, current),
        run.pending@.len() > 0,
        run.phase == RunPhase::Finished,
        run.failure is None,
    ensures
        run.version == latest_of(list),
        newer_than(list, run.version).len() == 0,
{
    lemma_newer(list, current);
    lemma_newer(list, run.version);
}

/// A run that was interrupted goes on, the next time, with the migration that
/// was interrupted.
pub proof fn an_interrupted_run_goes_on(list: Seq<Migration>, current: i64, run: MigrationRun)
    requires
        ascend(list),
        run.wf(),
        run.pending@ == newer_than(list, current),
        run.done > 0 || run.version == current,
    ensures
        newer_than(list, run.version) == run.pending@.skip(run.done as int),
{
    lemma_first_newer(list, current, 0);
    let first = first_newer(list, current, 0);
    lemma_newer_is_tail(list, current, first);
    let from = first + run.done;
    assert forall|k: int| 0 <= k < from implies (#[trigger] list[k]).version <= run.version by {
        if run.done > 0 {
            let last = run.pending@[run.done - 1];
            assert(last == list[from - 1]);
            if k < from - 1 {
                assert(list[k].version < list[from - 1].version);
            }
        }
    }
    assert forall|k: int| from <= k < list.len() implies (#[trigger] list[k]).version
        > run.version by {
        assert(run.pending@[k - first] == list[k]);
    }
    lemma_newer_is_tail(list, run.version, from);
    assert(list.skip(first).skip(run.done as int) =~= list.skip(from));
}

/// References are enforced again before a run stops: where they are not, it
/// stops only after it turned that on.
pub proof fn enforcement_is_restored(run: MigrationRun, event: RunEvent)
    requires
        run.wf(),
        is_expected(run.phase, event),
        run.phase != RunPhase::Release,
        run.phase != RunPhase::Finished,
        run.after(event).phase == RunPhase::Finished,
    ensures
        run.phase == RunPhase::Restore,
{
}

/// What a run commits left no more references that lead nowhere than there
/// were, and what it gives up changes neither the version nor what is done.
pub proof fn only_new_violations_stop_a_run(run: MigrationRun, count: u64)
    requires
        run.wf(),
        run.phase == RunPhase::CountAfter,
    ensures
        ({
            let next = run.after(RunEvent::Counted(count));
            &&& next.phase == (if count <= run.before {
                RunPhase::Record
            } else {
                RunPhase::RollBack
            })
            &&& next.version == run.version
            &&& next.done == run.done
        }),
{
}

/// A run takes its steps in order for each migration: it begins, counts, runs,
/// counts again, records and commits, and then goes on with the next, or lets
/// references be enforced again where there is none. Only a commit changes the
/// version, to that of the migration.
pub proof fn a_run_takes_its_steps_in_order(run: MigrationRun, count: u64)
    requires
        run.wf(),
        run.done < usize::MAX,
    ensures
        ({
            let next = run.after(RunEvent::Done);
            let last = run.done + 1 == run.pending@.len();
            &&& run.phase is Release ==> next.phase == if run.pending@.len() > 0 {
                RunPhase::Begin
            } else {
                RunPhase::Restore
            }
            &&& run.phase is Begin ==> next.phase is CountBefore
            &&& run.phase is CountBefore ==> run.after(RunEvent::Counted(count)).phase is Apply
                && run.after(RunEvent::Counted(count)).before == count
            &&& run.phase is Apply ==> next.phase is CountAfter
            &&& run.phase is Record ==> next.phase is Commit
            &&& run.phase is Commit ==> next.done == run.done + 1 && next.version
                == run.pending@[run.done as int].version
            &&& run.phase is Commit && !last ==> next.phase is Begin
            &&& run.phase is Commit && last ==> next.phase is Restore
            &&& run.phase is RollBack ==> next.phase is Restore
            &&& run.phase is Restore ==> next.phase is Finished
            &&& run.phase !is Commit ==> next.version == run.version && next.done == run.done
            &&& next.failure == run.failure && next.pending == run.pending
        }),
{
}

/// A step that fails stops the run: what is in a transaction is given up, and
/// the failure says which migration it was. Neither the version nor what was
/// committed changes, and a failure that is there stays.
pub proof fn a_failed_step_stops_the_run(run: MigrationRun, cause: String)
    requires
        run.wf(),
    ensures
        ({
            let next = run.after(RunEvent::Failed(cause));
            let name = run.pending@[run.done as int].name;
            &&& next.version == run.version && next.done == run.done && next.pending == run.pending
            &&& next.failure is Some || run.phase is Finished
            &&& run.failure is Some ==> next.failure == run.failure
            &&& run.phase is Begin ==> next.phase is Restore && next.failure == Some(
                MigrationError::Begin { name, cause },
            )
            &&& run.phase is Apply ==> next.phase is RollBack && next.failure == Some(
                MigrationError::Apply { name, cause },
            )
            &&& run.phase is Commit ==> next.phase is RollBack && next.failure == Some(
                MigrationError::Commit { name, cause },
            )
            &&& run.phase is CountBefore || run.phase is CountAfter || run.phase is Record
                ==> next.phase is RollBack
            &&& run.phase is RollBack ==> next.phase is Restore
            &&& run.phase is Restore || run.phase is Release ==> next.phase is Finished
        }),
{
}

/// A database of a later version than is known is refused, one of the latest
/// needs nothing, and one of an earlier version needs exactly the migrations
/// that lead beyond it, in their order.
pub proof fn a_database_needs_what_it_lacks(
    current: i64,
    list: &Vec<Migration>,
    run: Result<MigrationRun, MigrationError>,
    i: int,
)
    requires
        ascend(list@),
        call_ensures(MigrationRun::start, (current, list), run),
        0 <= i < list@.len(),
    ensures
        current > list@.last().version <==> run is Err,
        run matches Err(error) ==> error == (MigrationError::Newer {
            current,
            latest: list@.last().version,
        }),
        run matches Ok(run) ==> {
            let lacking = |m: Migration| m.version > current;
            &&& run.done == 0 && run.version == current && run.failure is None
            &&& run.phase is Finished <==> current == list@.last().version
            &&& run.phase is Release <==> current < list@.last().version
            &&& run.pending@.len() == table::count(list@, lacking, list@.len() as int)
            &&& list@[i].version > current ==> run.pending@[table::count(
                list@,
                lacking,
                i,
            )] == list@[i]
        },
{
    let lacking = |m: Migration| m.version > current;
    if let Ok(run) = run {
        table::lemma_same_filter(
            list@,
            |m: Migration| m.version > current,
            lacking,
        );
        table::lemma_count(list@, lacking, list@.len() as int);
        if lacking(list@[i]) {
            table::lemma_chosen_place(list@, lacking, i);
        }
    }
}

/// A column is added exactly where a table does not have it.
pub proof fn only_a_missing_column_is_added(
    columns: &Vec<String>,
    table: &str,
    column: &str,
    definition: &str,
    statement: Option<String>,
)
    requires
        call_ensures(add_column_if_missing, (columns, table, column, definition), statement),
    ensures
        statement is None <==> exists|k: int|
            0 <= k < columns@.len() && (#[trigger] columns@[k])@ == column@,
        statement matches Some(statement) ==> statement@ == "ALTER TABLE "@ + table@
            + " ADD COLUMN "@ + column@ + " "@ + definition@,
{
}

} // verus!
