//! Opening a database: who looks after it, when it is checked, backed up,
//! migrated and shrunk, and when a connection is shared.

use vstd::prelude::*;

use crate::state::migrations::LATEST_VERSION;
use crate::text::{joined, same_text};
use crate::text_map::TextMap;

verus! {

/// Who opens the database.
#[derive(Clone, Copy, Debug, PartialEq, Eq, Structural)]
pub enum OpenRole {
    /// The service, which looks after it.
    Maintain,
    /// Anyone else, who uses a database of the latest version as it is.
    Client,
}

/// What a check says of a database that is in order.
pub const IN_ORDER: &'static str = "ok";

/// What a check found: what it says, or that it could not be made.
pub fn check_report(check: Result<String, String>) -> (report: String)
    ensures
        report@ == match check {
            Ok(found) => found@,
            Err(error) => "quick_check failed: "@ + error@,
        },
{
    match check {
        Ok(found) => found,
        Err(error) => joined("quick_check failed: ", error.as_str()),
    }
}

/// How pages that are no longer used are given back.
#[derive(Clone, Copy, Debug, PartialEq, Eq, Structural)]
pub enum Reclaim {
    /// By rewriting the database. This is done once, for one that cannot give
    /// them back bit by bit.
    Rewrite,
    /// A part of them, as so many are free.
    Part,
    /// Not now: too few are free.
    Nothing,
}

/// How many pages have to be free for any to be given back.
pub const FREE_PAGES_WORTH_RECLAIMING: i64 = 64;

/// How pages are given back by a database whose mode is `mode`, with `free`
/// pages that are no longer used. What could not be asked counts as 0.
pub fn reclaim_free_pages(mode: Option<i64>, free: Option<i64>) -> (how: Reclaim)
    ensures
        how == (if mode is None || mode == Some(0i64) {
            Reclaim::Rewrite
        } else if free is Some && free->0 >= FREE_PAGES_WORTH_RECLAIMING {
            Reclaim::Part
        } else {
            Reclaim::Nothing
        }),
{
    let mode: i64 = match mode {
        Some(mode) => mode,
        None => 0,
    };
    if mode == 0 {
        return Reclaim::Rewrite;
    }
    let free: i64 = match free {
        Some(free) => free,
        None => 0,
    };
    if free < FREE_PAGES_WORTH_RECLAIMING {
        Reclaim::Nothing
    } else {
        Reclaim::Part
    }
}

/// The code of a database whose pages are broken.
pub const CODE_CORRUPT: i32 = 11;

/// The code of a file that is no database.
pub const CODE_NOT_A_DATABASE: i32 = 26;

/// Whether a code says that a database is broken.
pub open spec fn is_broken(code: Option<i32>) -> bool {
    code == Some(CODE_CORRUPT) || code == Some(CODE_NOT_A_DATABASE)
}

/// Whether one of some codes says that a database is broken.
pub open spec fn any_broken(codes: Seq<Option<i32>>) -> bool {
    exists|i: int| 0 <= i < codes.len() && is_broken(#[trigger] codes[i])
}

/// Whether an error says that a database is broken. Each of its causes has a
/// code where it comes from the database.
pub fn is_database_corrupt(causes: &Vec<Option<i32>>) -> (r: bool)
    ensures
        r == any_broken(causes@),
{
    let mut i: usize = 0;
    while i < causes.len()
        invariant
            i <= causes@.len(),
            forall|k: int| 0 <= k < i ==> !is_broken(#[trigger] causes@[k]),
        decreases causes@.len() - i,
    {
        if let Some(code) = causes[i] {
            if code == CODE_CORRUPT || code == CODE_NOT_A_DATABASE {
                return true;
            }
        }
        i += 1;
    }
    false
}

/// What a user is told of a broken database, and of a backup where there is
/// one.
pub open spec fn broken_text(path: Seq<char>, backup: Option<Seq<char>>) -> Seq<char> {
    "会话数据库已损坏："@ + path
        + "\n先停掉所有 miyu 进程，再任选一条：\n1. 抢救数据：用 sqlite3 命令行对该文件跑 \".recover\" 导出后重建\n2. 放弃历史：把 conversation.db、conversation.db-wal、conversation.db-shm 一起挪走，Miyu 会重建空库"@
        + match backup {
        Some(backup) => "\n可用的迁移前备份："@ + backup
            + "（改名成 conversation.db 顶上，会丢掉最后一次版本升级之后的记录）"@,
        None => Seq::empty(),
    }
}

/// What a user is told of a broken database.
pub fn corruption_report(path: &str, backup: Option<&str>) -> (report: String)
    ensures
        report@ == broken_text(
            path@,
            match backup {
                Some(backup) => Some(backup@),
                None => None,
            },
        ),
{
    let mut report = "会话数据库已损坏：".to_owned();
    report.append(path);
    report.append(
        "\n先停掉所有 miyu 进程，再任选一条：\n1. 抢救数据：用 sqlite3 命令行对该文件跑 \".recover\" 导出后重建\n2. 放弃历史：把 conversation.db、conversation.db-wal、conversation.db-shm 一起挪走，Miyu 会重建空库",
    );
    if let Some(backup) = backup {
        let mut recovery = "\n可用的迁移前备份：".to_owned();
        recovery.append(backup);
        recovery.append("（改名成 conversation.db 顶上，会丢掉最后一次版本升级之后的记录）");
        report.append(recovery.as_str());
    } else {
        assert(report@ =~= report@ + Seq::<char>::empty());
    }
    report
}

/// What is done next while a database is opened.
#[derive(Clone, Copy, Debug, PartialEq, Eq, Structural)]
pub enum OpenAction {
    /// It is checked.
    Check,
    /// It is asked whether it holds any turns.
    AskForTurns,
    /// It is backed up.
    BackUp,
    /// It is said that it is not backed up, as it is not in order.
    ReportNoBackUp,
    /// It is migrated.
    Migrate,
    /// Pages that are no longer used are given back.
    Reclaim,
    /// It is open.
    Finish,
}

/// A database that is being opened.
#[derive(Debug)]
pub struct Opening {
    pub role: OpenRole,
    /// The version that it recorded.
    pub version: i64,
    /// What the check said, where it was made.
    pub check: Option<String>,
    /// Whether it holds turns, where that was asked.
    pub turns: Option<bool>,
    /// Whether it was backed up, or said why not.
    pub backed_up: bool,
    pub migrated: bool,
    pub reclaimed: bool,
}

impl Opening {
    /// Whether the database is of an earlier version than the latest.
    pub open spec fn is_behind(&self) -> bool {
        self.version < LATEST_VERSION
    }

    /// Whether it is looked after: by the service, and by anyone who has to
    /// migrate it.
    pub open spec fn is_maintained(&self) -> bool {
        self.role == OpenRole::Maintain || self.is_behind()
    }

    /// Whether it was checked and is in order.
    pub open spec fn is_in_order(&self) -> bool {
        match self.check {
            Some(check) => check@ == IN_ORDER@,
            None => false,
        }
    }

    /// What is done next.
    pub open spec fn upcoming(&self) -> OpenAction {
        if self.is_maintained() && self.check is None {
            OpenAction::Check
        } else if self.is_behind() && self.turns is None {
            OpenAction::AskForTurns
        } else if self.is_behind() && self.turns == Some(true) && !self.backed_up {
            if self.is_in_order() {
                OpenAction::BackUp
            } else {
                OpenAction::ReportNoBackUp
            }
        } else if !self.migrated {
            OpenAction::Migrate
        } else if self.is_in_order() && !self.reclaimed {
            OpenAction::Reclaim
        } else {
            OpenAction::Finish
        }
    }

    /// A database that records this version.
    pub fn new(role: OpenRole, version: i64) -> (opening: Self)
        ensures
            opening.role == role,
            opening.version == version,
            opening.check is None,
            opening.turns is None,
            !opening.backed_up,
            !opening.migrated,
            !opening.reclaimed,
    {
        Opening {
            role,
            version,
            check: None,
            turns: None,
            backed_up: false,
            migrated: false,
            reclaimed: false,
        }
    }

    /// Whether the database is looked after.
    pub fn maintained(&self) -> (r: bool)
        ensures
            r == self.is_maintained(),
    {
        self.role == OpenRole::Maintain || self.version < LATEST_VERSION
    }

    /// What is done next.
    pub fn next(&self) -> (action: OpenAction)
        ensures
            action == self.upcoming(),
    {
        let behind = self.version < LATEST_VERSION;
        let in_order = match &self.check {
            Some(check) => same_text(check.as_str(), IN_ORDER),
            None => false,
        };
        if self.maintained() && self.check.is_none() {
            return OpenAction::Check;
        }
        if behind && !self.backed_up {
            match self.turns {
                None => {
                    return OpenAction::AskForTurns;
                },
                Some(true) => {
                    return if in_order {
                        OpenAction::BackUp
                    } else {
                        OpenAction::ReportNoBackUp
                    };
                },
                Some(false) => {},
            }
        } else if behind && self.turns.is_none() {
            return OpenAction::AskForTurns;
        }
        if !self.migrated {
            OpenAction::Migrate
        } else if in_order && !self.reclaimed {
            OpenAction::Reclaim
        } else {
            OpenAction::Finish
        }
    }

    /// Takes in what the check said.
    pub fn checked(&mut self, report: String)
        ensures
            *final(self) == (Opening { check: Some(report), ..*old(self) }),
    {
        self.check = Some(report);
    }

    /// Takes in whether the database holds turns.
    pub fn asked_for_turns(&mut self, turns: bool)
        ensures
            *final(self) == (Opening { turns: Some(turns), ..*old(self) }),
    {
        self.turns = Some(turns);
    }

    /// Takes in that the backup was tried, or that it was said why it is not.
    /// Whether it worked does not matter: the migration goes on.
    pub fn backup_tried(&mut self)
        ensures
            *final(self) == (Opening { backed_up: true, ..*old(self) }),
    {
        self.backed_up = true;
    }

    /// Takes in that the database was migrated.
    pub fn was_migrated(&mut self)
        ensures
            *final(self) == (Opening { migrated: true, ..*old(self) }),
    {
        self.migrated = true;
    }

    /// Takes in that pages were given back, or that it was tried.
    pub fn was_reclaimed(&mut self)
        ensures
            *final(self) == (Opening { reclaimed: true, ..*old(self) }),
    {
        self.reclaimed = true;
    }
}

/// What is done next while a database is backed up.
#[derive(Clone, Copy, Debug, PartialEq, Eq, Structural)]
pub enum BackupStep {
    /// What an earlier attempt left is taken away.
    ClearStaging,
    /// The database is written to a file of its own.
    Export,
    /// That file takes the place of the backup.
    Promote,
    /// That file is taken away, and the backup stays.
    DropStaging,
    Finished,
}

/// What is done after a step of a backup that went well, or did not.
pub open spec fn backup_after(step: BackupStep, well: bool) -> BackupStep {
    match step {
        BackupStep::ClearStaging => BackupStep::Export,
        BackupStep::Export => if well {
            BackupStep::Promote
        } else {
            BackupStep::DropStaging
        },
        BackupStep::Promote => if well {
            BackupStep::Finished
        } else {
            BackupStep::DropStaging
        },
        BackupStep::DropStaging => BackupStep::Finished,
        BackupStep::Finished => BackupStep::Finished,
    }
}

impl BackupStep {
    /// What is done after a step that went well, or did not.
    pub fn after(self, well: bool) -> (next: Self)
        ensures
            next == backup_after(self, well),
    {
        match self {
            BackupStep::ClearStaging => BackupStep::Export,
            BackupStep::Export => if well {
                BackupStep::Promote
            } else {
                BackupStep::DropStaging
            },
            BackupStep::Promote => if well {
                BackupStep::Finished
            } else {
                BackupStep::DropStaging
            },
            BackupStep::DropStaging => BackupStep::Finished,
            BackupStep::Finished => BackupStep::Finished,
        }
    }
}

/// A connection that the process has open.
#[derive(Debug)]
pub struct SharedEntry {
    /// Which file it was opened on: its device and its number.
    pub identity: Option<(u64, u64)>,
    /// Whether anyone still uses it.
    pub alive: bool,
}

/// Whether a connection can be used again for a file.
pub open spec fn reusable(entry: SharedEntry, now: Option<(u64, u64)>) -> bool {
    entry.alive && entry.identity is Some && entry.identity == now
}

/// Whether a connection on a database can be used again. One whose file was
/// replaced in the meantime cannot.
pub fn shares(open: &TextMap<SharedEntry>, path: &str, now: Option<(u64, u64)>) -> (r: bool)
    requires
        open.wf(),
    ensures
        r == (open@.contains_key(path@) && reusable(open@[path@], now)),
{
    match open.get(path) {
        Some(entry) => entry.alive && match (entry.identity, now) {
            (Some((a, b)), Some((c, d))) => a == c && b == d,
            _ => false,
        },
        None => false,
    }
}

/// The connections that are used.
pub open spec fn in_use(open: Map<Seq<char>, SharedEntry>) -> Map<Seq<char>, SharedEntry> {
    open.restrict(Set::new(|path: Seq<char>| open.contains_key(path) && open[path].alive))
}

/// What remembering a connection comes to.
pub open spec fn is_remembered(
    before: Map<Seq<char>, SharedEntry>,
    after: Map<Seq<char>, SharedEntry>,
    path: Seq<char>,
    identity: Option<(u64, u64)>,
) -> bool {
    after == in_use(before).insert(path, SharedEntry { identity, alive: true })
}

/// Remembers a connection that was opened, and forgets those that nobody uses.
pub fn remember(open: &mut TextMap<SharedEntry>, path: String, identity: Option<(u64, u64)>)
    requires
        old(open).wf(),
    ensures
        final(open).wf(),
        is_remembered(old(open)@, final(open)@, path@, identity),
{
    let mut i: usize = 0;
    let ghost whole = open@;
    let ghost kept = Set::new(|path: Seq<char>| whole.contains_key(path) && whole[path].alive);
    proof {
        crate::text_map::lemma_map_of(open.entries@);
    }
    while i < open.entries.len()
        invariant
            i <= open.entries@.len(),
            open.wf(),
            kept == Set::new(|path: Seq<char>| whole.contains_key(path) && whole[path].alive),
            open@.submap_of(whole),
            forall|key: Seq<char>|
                whole.contains_key(key) && whole[key].alive ==> #[trigger] open@.contains_key(key),
            forall|k: int| 0 <= k < i ==> (#[trigger] open.entries@[k]).1.alive,
        decreases open.entries@.len() - i,
    {
        if open.entries[i].1.alive {
            i += 1;
        } else {
            let ghost before = open.entries@;
            proof {
                crate::text_map::lemma_map_of(before);
            }
            open.entries.remove(i);
            proof {
                crate::text_map::lemma_map_without(before, i as int);
                assert forall|k: int| 0 <= k < i implies (
                #[trigger] open.entries@[k]).1.alive by {
                    assert(open.entries@[k] == before[k]);
                }
            }
        }
    }
    proof {
        crate::text_map::lemma_map_of(open.entries@);
        assert forall|key: Seq<char>| #[trigger] open@.contains_key(key) implies whole.contains_key(
            key,
        ) && whole[key].alive by {
            let k = choose|k: int|
                0 <= k < open.entries@.len() && (#[trigger] open.entries@[k]).0@ == key;
            assert(open.entries@[k].1.alive);
        }
        assert(open@ =~= in_use(whole));
    }
    open.insert(path, SharedEntry { identity, alive: true });
}

/// Whether `r` says that a shared connection is looked after by someone who
/// asked for it in a role, and `after` that it was.
pub open spec fn is_once(before: bool, role: OpenRole, after: bool, r: bool) -> bool {
    &&& r == (role == OpenRole::Maintain && !before)
    &&& after == (before || role == OpenRole::Maintain)
}

/// Whether a shared connection still has to be looked after by someone who
/// asked for it. It is, once, by the service.
pub fn maintain_once(maintained: &mut bool, role: OpenRole) -> (r: bool)
    ensures
        is_once(*old(maintained), role, *final(maintained), r),
{
    if role == OpenRole::Maintain {
        let before = *maintained;
        *maintained = true;
        !before
    } else {
        false
    }
}

// ---------------------------------------------------------------------------
// Laws
// ---------------------------------------------------------------------------

/// A client leaves a database of the latest version alone.
pub proof fn clients_leave_a_current_database_alone(opening: Opening)
    requires
        opening.role == OpenRole::Client,
        !opening.is_behind(),
        opening.check is None,
    ensures
        opening.upcoming() == OpenAction::Migrate || opening.upcoming() == OpenAction::Finish,
{
}

/// A database is neither rewritten nor shrunk unless a check found it in
/// order.
pub proof fn a_broken_database_is_not_rewritten(opening: Opening)
    requires
        opening.upcoming() == OpenAction::BackUp || opening.upcoming() == OpenAction::Reclaim,
    ensures
        opening.is_in_order(),
{
}

/// A database that holds turns is not migrated before its backup was tried, or
/// it was said why it is not.
pub proof fn a_backup_comes_before_a_migration(opening: Opening)
    requires
        opening.is_behind(),
        opening.upcoming() == OpenAction::Migrate,
    ensures
        opening.check is Some,
        opening.turns == Some(false) || opening.backed_up,
{
}

/// The backup is replaced only by one that was written whole.
pub proof fn a_failed_backup_keeps_the_existing_one(step: BackupStep, well: bool)
    requires
        backup_after(step, well) == BackupStep::Promote,
    ensures
        step == BackupStep::Export,
        well,
{
}

/// A connection is not handed out once its file was replaced.
pub proof fn a_replaced_file_gets_a_new_connection(
    entry: SharedEntry,
    before: (u64, u64),
    now: Option<(u64, u64)>,
)
    requires
        entry.identity == Some(before),
        now != Some(before),
    ensures
        !reusable(entry, now),
{
}

/// What is done next while a database is opened, told by what is known of it.
/// It is checked first, by the service and by anyone who has to migrate it. One
/// that is behind is asked for its turns, and backed up where it has any: only
/// where it is in order, and else it is said why not. Then it is migrated, and
/// shrunk where it is in order.
pub proof fn opening_takes_its_steps_in_order(opening: &Opening, action: OpenAction)
    requires
        call_ensures(Opening::next, (opening,), action),
    ensures
        ({
            let behind = opening.version < LATEST_VERSION;
            let unchecked = (opening.role is Maintain || behind) && opening.check is None;
            let unasked = behind && opening.turns is None;
            let unsaved = behind && opening.turns == Some(true) && !opening.backed_up;
            let fine = opening.check matches Some(report) && report@ == "ok"@;
            &&& action is Check <==> unchecked
            &&& action is AskForTurns <==> !unchecked && unasked
            &&& action is BackUp <==> !unchecked && !unasked && unsaved && fine
            &&& action is ReportNoBackUp <==> !unchecked && !unasked && unsaved && !fine
            &&& action is Migrate <==> !unchecked && !unasked && !unsaved && !opening.migrated
            &&& action is Reclaim <==> !unchecked && !unasked && !unsaved && opening.migrated
                && fine && !opening.reclaimed
            &&& action is Finish <==> !unchecked && !unasked && !unsaved && opening.migrated && (
            !fine || opening.reclaimed)
        }),
{
}

/// Pages are given back by rewriting where they cannot be otherwise, and else
/// only where at least 64 are free.
pub proof fn few_free_pages_stay(mode: Option<i64>, free: Option<i64>, how: Reclaim)
    requires
        call_ensures(reclaim_free_pages, (mode, free), how),
    ensures
        how is Rewrite <==> mode is None || mode == Some(0i64),
        how is Part <==> how !is Rewrite && (free matches Some(n) && n >= 64),
{
}

/// A database is taken for broken exactly where one of the causes of an error
/// has one of the two codes for it.
pub proof fn two_codes_are_broken(causes: &Vec<Option<i32>>, r: bool, i: int)
    requires
        call_ensures(is_database_corrupt, (causes,), r),
    ensures
        0 <= i < causes@.len() && (causes@[i] == Some(11i32) || causes@[i] == Some(26i32)) ==> r,
        (forall|k: int|
            0 <= k < causes@.len() ==> (#[trigger] causes@[k]) != Some(11i32) && causes@[k] != Some(
                26i32,
            )) ==> !r,
{
    if 0 <= i < causes@.len() && (causes@[i] == Some(11i32) || causes@[i] == Some(26i32)) {
        assert(is_broken(causes@[i]));
        assert(any_broken(causes@));
    }
}

/// A backup is written aside and takes the place of the last one only where it
/// was written whole. Where anything fails, what was written aside is taken
/// away.
pub proof fn a_backup_takes_its_steps_in_order(step: BackupStep, well: bool, next: BackupStep)
    requires
        call_ensures(BackupStep::after, (step, well), next),
    ensures
        step is ClearStaging ==> next is Export,
        step is Export && well ==> next is Promote,
        step is Promote && well ==> next is Finished,
        (step is Export || step is Promote) && !well ==> next is DropStaging,
        step is DropStaging || step is Finished ==> next is Finished,
{
}

/// A connection is shared exactly where someone still uses it and its file is
/// the one that it was opened on. One that was remembered is there, those in
/// use stay, and those that nobody uses are forgotten.
pub proof fn connections_in_use_are_shared(
    open: &TextMap<SharedEntry>,
    path: &str,
    now: Option<(u64, u64)>,
    shared: bool,
    after: Map<Seq<char>, SharedEntry>,
    other: Seq<char>,
)
    requires
        call_ensures(shares, (open, path, now), shared),
        is_remembered(open@, after, path@, now),
        other != path@,
    ensures
        shared <==> open@.contains_key(path@) && open@[path@].alive && now is Some
            && open@[path@].identity == now,
        after.contains_key(path@) && after[path@].alive && after[path@].identity == now,
        after.contains_key(other) <==> open@.contains_key(other) && open@[other].alive,
        after.contains_key(other) ==> after[other] == open@[other],
{
}

/// What a check found is told as it is, and one that could not be made is told
/// to have failed.
pub proof fn a_check_is_told(check: Result<String, String>, report: String)
    requires
        call_ensures(check_report, (check,), report),
    ensures
        check matches Ok(found) ==> report@ == found@,
        check matches Err(error) ==> report@ == "quick_check failed: "@ + error@,
{
}

/// A shared connection is looked after the first time that it is asked for to
/// be, and never again.
pub proof fn maintaining_is_done_once(
    before: bool,
    role: OpenRole,
    between: bool,
    first: bool,
    later: OpenRole,
    after: bool,
    second: bool,
)
    requires
        is_once(before, role, between, first),
        is_once(between, later, after, second),
    ensures
        !(first && second),
        role == OpenRole::Maintain && !before ==> first,
        role != OpenRole::Maintain ==> !first && between == before,
        before ==> !first && between,
{
}

} // verus!
