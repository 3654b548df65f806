//! The files that small things of a session were once kept in.
//!
//! What they held is taken over before the first use. The files themselves
//! stay until what they held is cleared or the session is deleted.

use vstd::prelude::*;

use crate::digest::{self, hex_digest};
use crate::state::conversation_db::session_state::{LegacyContent, LegacyKind, SessionValueKind};
use crate::table;
use crate::text::{self, chars_of, joined, lines_of, same_text, string_of, trimmed};

verus! {

/// How many lines typed at a terminal are kept for each session.
pub const REPL_HISTORY_KEEP: usize = 200;

/// How long a path segment is at most.
pub const SEGMENT_LIMIT: usize = 48;

/// Whether a character can stand in the name of a session's file.
pub open spec fn is_plain(c: char) -> bool {
    text::is_alnum(c) || c == '_' || c == '-'
}

/// Whether a character can stand in the name of a session's file.
fn plain(c: char) -> (r: bool)
    ensures
        r == is_plain(c),
{
    ('a' <= c && c <= 'z') || ('A' <= c && c <= 'Z') || ('0' <= c && c <= '9') || c == '_' || c == '-'
}

/// Whether a session id can be a file name as it is.
pub open spec fn is_plain_id(id: Seq<char>) -> bool {
    id.len() > 0 && forall|i: int| 0 <= i < id.len() ==> is_plain(#[trigger] id[i])
}

/// Whether a session id can be a file name as it is. Anything else could lead
/// to another place.
pub fn is_plain_session_id(session_id: &str) -> (r: bool)
    ensures
        r == is_plain_id(session_id@),
{
    let chars = chars_of(session_id);
    if chars.len() == 0 {
        return false;
    }
    let mut i: usize = 0;
    while i < chars.len()
        invariant
            i <= chars@.len(),
            chars@ == session_id@,
            forall|k: int| 0 <= k < i ==> is_plain(#[trigger] chars@[k]),
        decreases chars@.len() - i,
    {
        if !plain(chars[i]) {
            return false;
        }
        i += 1;
    }
    true
}

/// A character as it can stand in a path segment.
pub open spec fn segment_char(c: char) -> char {
    if is_plain(c) || c == '.' {
        c
    } else {
        '_'
    }
}

/// A text as a path segment.
pub open spec fn segment(raw: Seq<char>) -> Seq<char> {
    let whole = raw.map_values(|c: char| segment_char(c));
    if whole.len() > SEGMENT_LIMIT {
        whole.take(SEGMENT_LIMIT as int)
    } else {
        whole
    }
}

/// A text as a path segment: what could not stand in one is replaced, and it
/// is cut where it is too long.
pub fn safe_path_segment(raw: &str) -> (out: String)
    ensures
        out@ == segment(raw@),
{
    let chars = chars_of(raw);
    let mut out = String::new();
    let mut i: usize = 0;
    let ghost whole = raw@.map_values(|c: char| segment_char(c));
    proof {
        assert(out@ =~= whole.take(0));
    }
    while i < chars.len() && i < SEGMENT_LIMIT
        invariant
            i <= chars@.len(),
            i <= SEGMENT_LIMIT,
            chars@ == raw@,
            whole == raw@.map_values(|c: char| segment_char(c)),
            out@ == whole.take(i as int),
        decreases chars@.len() - i,
    {
        let c = chars[i];
        if plain(c) || c == '.' {
            out.push(c);
        } else {
            out.push('_');
        }
        assert(out@ =~= whole.take(i + 1));
        i += 1;
    }
    assert(out@ =~= segment(raw@));
    out
}

/// A session id as the name of the file of lines typed at its terminal.
pub open spec fn history_stem(id: Seq<char>) -> Seq<char> {
    id.map_values(
        |c: char|
            if is_plain(c) {
                c
            } else {
                '_'
            },
    )
}

/// A session id as the name of the file of lines typed at its terminal.
fn repl_history_stem(session_id: &str) -> (out: String)
    ensures
        out@ == history_stem(session_id@),
{
    let chars = chars_of(session_id);
    let mut out = String::new();
    let mut i: usize = 0;
    let ghost whole = history_stem(session_id@);
    proof {
        assert(out@ =~= whole.take(0));
    }
    while i < chars.len()
        invariant
            i <= chars@.len(),
            chars@ == session_id@,
            whole == history_stem(session_id@),
            out@ == whole.take(i as int),
        decreases chars@.len() - i,
    {
        let c = chars[i];
        if plain(c) {
            out.push(c);
        } else {
            out.push('_');
        }
        assert(out@ =~= whole.take(i + 1));
        i += 1;
    }
    assert(whole.take(whole.len() as int) =~= whole);
    out
}

/// Where an old file is.
#[derive(Debug)]
pub struct LegacyFile {
    /// Whether it is in the home of the account, not with the state.
    pub at_home: bool,
    pub dir: &'static str,
    pub name: String,
}

/// Where an old file of a session is. There is none where the session id
/// cannot be a file name.
pub open spec fn legacy_place(session: Seq<char>, kind: LegacyKind) -> Option<
    (bool, &'static str, Seq<char>),
> {
    match kind {
        LegacyKind::Value(SessionValueKind::Todos) => if is_plain_id(session) {
            Some((false, "todos", session + ".json"@))
        } else {
            None
        },
        LegacyKind::Value(SessionValueKind::PromptFingerprint) => Some(
            (false, "prompt-fingerprints", digest::blake3_hex(session) + ".sha256"@),
        ),
        LegacyKind::Value(SessionValueKind::ThinkingPins) => if is_plain_id(session) {
            Some((true, "session-thinking-variants", session + ".json"@))
        } else {
            None
        },
        LegacyKind::ReplHistory => Some(
            (false, "repl-history", history_stem(session) + ".jsonl"@),
        ),
    }
}

/// Whether `file` is at a place.
pub open spec fn is_at(file: Option<LegacyFile>, place: Option<(bool, &'static str, Seq<char>)>) -> bool {
    match (file, place) {
        (Some(file), Some((at_home, dir, name))) => file.at_home == at_home && file.dir == dir
            && file.name@ == name,
        (None, None) => true,
        _ => false,
    }
}

/// Where an old file of a session is.
pub fn legacy_file(session_id: &str, kind: LegacyKind) -> (file: Option<LegacyFile>)
    ensures
        is_at(file, legacy_place(session_id@, kind)),
{
    match kind {
        LegacyKind::Value(SessionValueKind::Todos) => {
            if !is_plain_session_id(session_id) {
                return None;
            }
            Some(LegacyFile { at_home: false, dir: "todos", name: joined(session_id, ".json") })
        },
        LegacyKind::Value(SessionValueKind::PromptFingerprint) => {
            let key = hex_digest(session_id);
            legacy_fingerprint(key.as_str())
        },
        LegacyKind::Value(SessionValueKind::ThinkingPins) => {
            if !is_plain_session_id(session_id) {
                return None;
            }
            Some(
                LegacyFile {
                    at_home: true,
                    dir: "session-thinking-variants",
                    name: joined(session_id, ".json"),
                },
            )
        },
        LegacyKind::ReplHistory => {
            let stem = repl_history_stem(session_id);
            Some(
                LegacyFile {
                    at_home: false,
                    dir: "repl-history",
                    name: joined(stem.as_str(), ".jsonl"),
                },
            )
        },
    }
}

/// Where the file of a prompt fingerprint is, under the digest `key`.
pub fn legacy_fingerprint(key: &str) -> (file: Option<LegacyFile>)
    ensures
        is_at(file, Some((false, "prompt-fingerprints", key@ + ".sha256"@))),
{
    Some(
        LegacyFile { at_home: false, dir: "prompt-fingerprints", name: joined(key, ".sha256") },
    )
}

/// The lines that are not blank.
pub open spec fn written_lines(lines: Seq<Seq<char>>) -> Seq<Seq<char>>
    decreases lines.len(),
{
    if lines.len() == 0 {
        Seq::empty()
    } else {
        let rest = written_lines(lines.drop_last());
        if text::trim(lines.last()).len() == 0 {
            rest
        } else {
            rest.push(lines.last())
        }
    }
}

/// The last `n` of a list.
pub open spec fn last_of(lines: Seq<Seq<char>>, n: int) -> Seq<Seq<char>> {
    if lines.len() > n {
        lines.skip(lines.len() - n)
    } else {
        lines
    }
}

/// Whether `content` is what is taken over from an old file with this text.
pub open spec fn is_content(raw: Seq<char>, kind: LegacyKind, content: LegacyContent) -> bool {
    match kind {
        LegacyKind::ReplHistory => content matches LegacyContent::Lines(lines) && text::views(lines@)
            == last_of(written_lines(text::lines(raw)), REPL_HISTORY_KEEP as int),
        LegacyKind::Value(SessionValueKind::PromptFingerprint) => content matches LegacyContent::Value(
            value,
        ) && value@ == text::trim(raw),
        LegacyKind::Value(_) => content matches LegacyContent::Value(value) && value@ == raw,
    }
}

/// Whether `content` is what is taken over from an old file, if there is one.
pub open spec fn is_legacy(raw: Option<&str>, kind: LegacyKind, content: Option<LegacyContent>) -> bool {
    match (raw, content) {
        (Some(raw), Some(content)) => is_content(raw@, kind, content),
        (None, None) => true,
        _ => false,
    }
}

/// The lines of a file that are not blank, the last of them where there are
/// many.
fn history_lines(raw: &str) -> (lines: Vec<String>)
    ensures
        text::views(lines@) == last_of(
            written_lines(text::lines(raw@)),
            REPL_HISTORY_KEEP as int,
        ),
{
    let all = lines_of(&chars_of(raw));
    let ghost texts = all@.map_values(|line: Vec<char>| line@);
    let mut lines: Vec<String> = Vec::new();
    let mut i: usize = 0;
    proof {
        assert(texts == text::lines(raw@));
        assert(texts.take(0) =~= Seq::empty());
        assert(text::views(lines@) =~= Seq::empty());
    }
    while i < all.len()
        invariant
            i <= all@.len(),
            texts == all@.map_values(|line: Vec<char>| line@),
            text::views(lines@) == written_lines(texts.take(i as int)),
        decreases all@.len() - i,
    {
        let line = string_of(&all[i]);
        proof {
            assert(texts.take(i + 1).drop_last() =~= texts.take(i as int));
            assert(texts.take(i + 1).last() == line@);
        }
        if trimmed(line.as_str()).as_str().unicode_len() > 0 {
            let ghost before = lines@;
            let ghost said = line@;
            lines.push(line);
            assert(text::views(lines@) =~= text::views(before).push(said));
        }
        i += 1;
    }
    let ghost whole = lines@;
    proof {
        assert(texts.take(texts.len() as int) =~= texts);
        assert(whole.skip(0) =~= whole);
    }
    while lines.len() > REPL_HISTORY_KEEP
        invariant
            lines@.len() <= whole.len(),
            lines@ =~= whole.skip(whole.len() - lines@.len()),
            whole.len() > REPL_HISTORY_KEEP ==> lines@.len() >= REPL_HISTORY_KEEP,
            whole.len() <= REPL_HISTORY_KEEP ==> lines@.len() == whole.len(),
        decreases lines@.len(),
    {
        lines.remove(0);
    }
    assert(text::views(lines@) =~= last_of(text::views(whole), REPL_HISTORY_KEEP as int));
    lines
}

/// What is taken over from an old file with this text.
pub fn read_legacy(raw: Option<&str>, kind: LegacyKind) -> (content: Option<LegacyContent>)
    ensures
        is_legacy(raw, kind, content),
{
    match raw {
        Some(raw) => match kind {
            LegacyKind::ReplHistory => Some(LegacyContent::Lines(history_lines(raw))),
            LegacyKind::Value(SessionValueKind::PromptFingerprint) => Some(
                LegacyContent::Value(trimmed(raw)),
            ),
            LegacyKind::Value(_) => Some(LegacyContent::Value(raw.to_owned())),
        },
        None => None,
    }
}

/// The files of a session outside the tables.
#[derive(Debug)]
pub struct SessionFiles {
    pub files: Vec<LegacyFile>,
    /// Whether the session has directories of its own, named as it is.
    pub dirs: bool,
}

/// The directories in which a session has one of its own.
pub const SESSION_DIRS: [&'static str; 2] = ["spill", "compact"];

/// Whether the id of a session is the name of its directories. An id that had
/// to be changed could be that of another session.
pub open spec fn has_dirs(session: Seq<char>) -> bool {
    is_plain_id(session) && segment(session) == session
}

/// The old files a session may have, of all kinds.
pub open spec fn places(session: Seq<char>) -> Seq<Option<(bool, &'static str, Seq<char>)>> {
    seq![
        legacy_place(session, LegacyKind::Value(SessionValueKind::Todos)),
        legacy_place(session, LegacyKind::Value(SessionValueKind::PromptFingerprint)),
        legacy_place(session, LegacyKind::Value(SessionValueKind::ThinkingPins)),
        legacy_place(session, LegacyKind::ReplHistory),
    ]
}

/// Whether `files` are at the places there are, in order.
pub open spec fn are_at(
    files: Seq<LegacyFile>,
    places: Seq<Option<(bool, &'static str, Seq<char>)>>,
) -> bool
    decreases places.len(),
{
    if places.len() == 0 {
        files.len() == 0
    } else {
        match places.last() {
            Some(place) => files.len() > 0 && is_at(Some(files.last()), Some(place)) && are_at(
                files.drop_last(),
                places.drop_last(),
            ),
            None => are_at(files, places.drop_last()),
        }
    }
}

/// Adds an old file to those of a session.
fn push_place(
    files: &mut Vec<LegacyFile>,
    session_id: &str,
    kind: LegacyKind,
    Ghost(before): Ghost<Seq<Option<(bool, &'static str, Seq<char>)>>>,
)
    requires
        are_at(old(files)@, before),
    ensures
        are_at(final(files)@, before.push(legacy_place(session_id@, kind))),
{
    let ghost given = files@;
    proof {
        assert(before.push(legacy_place(session_id@, kind)).drop_last() =~= before);
    }
    match legacy_file(session_id, kind) {
        Some(file) => {
            files.push(file);
            assert(files@.drop_last() =~= given);
        },
        None => {},
    }
}

/// What is to be removed outside the tables when a session is deleted.
pub fn session_files(session_id: &str) -> (out: SessionFiles)
    ensures
        are_at(out.files@, places(session_id@)),
        out.dirs == has_dirs(session_id@),
{
    let mut files: Vec<LegacyFile> = Vec::new();
    let ghost none: Seq<Option<(bool, &'static str, Seq<char>)>> = Seq::empty();
    let ghost all = places(session_id@);
    push_place(
        &mut files,
        session_id,
        LegacyKind::Value(SessionValueKind::Todos),
        Ghost(none),
    );
    push_place(
        &mut files,
        session_id,
        LegacyKind::Value(SessionValueKind::PromptFingerprint),
        Ghost(none.push(all[0])),
    );
    push_place(
        &mut files,
        session_id,
        LegacyKind::Value(SessionValueKind::ThinkingPins),
        Ghost(none.push(all[0]).push(all[1])),
    );
    push_place(
        &mut files,
        session_id,
        LegacyKind::ReplHistory,
        Ghost(none.push(all[0]).push(all[1]).push(all[2])),
    );
    assert(none.push(all[0]).push(all[1]).push(all[2]).push(all[3]) =~= all);
    let dirs = is_plain_session_id(session_id) && same_text(
        safe_path_segment(session_id).as_str(),
        session_id,
    );
    SessionFiles { files, dirs }
}

// ---------------------------------------------------------------------------
// Laws
// ---------------------------------------------------------------------------

/// A path segment holds nothing that could leave its directory, and is short.
pub proof fn segments_are_safe(raw: Seq<char>, i: int)
    requires
        0 <= i < segment(raw).len(),
    ensures
        is_plain(segment(raw)[i]) || segment(raw)[i] == '.',
        segment(raw).len() <= SEGMENT_LIMIT,
{
}

/// A path segment is one already.
pub proof fn segments_stay(raw: Seq<char>)
    ensures
        segment(segment(raw)) == segment(raw),
{
    assert(segment(segment(raw)) =~= segment(raw));
}

/// The directories of a session are its own: no other session has the same,
/// and none is above it.
pub proof fn directories_are_not_shared(a: Seq<char>, b: Seq<char>)
    requires
        has_dirs(a),
        has_dirs(b),
        segment(a) == segment(b),
    ensures
        a == b,
        a != "."@,
        a != ".."@,
{
    reveal_strlit(".");
    reveal_strlit("..");
    assert(is_plain(a[0]));
}

/// Where an old file is: by the kind in its own directory, under the session's
/// id where that can be a name, and under a digest or a changed id where any id
/// can be.
pub proof fn old_files_have_their_places(session_id: &str, kind: LegacyKind, file: Option<LegacyFile>)
    requires
        call_ensures(legacy_file, (session_id, kind), file),
    ensures
        kind == LegacyKind::Value(SessionValueKind::Todos) ==> (file is Some <==> is_plain_id(
            session_id@,
        )) && (file matches Some(file) ==> !file.at_home && file.dir == "todos" && file.name@
            == session_id@ + ".json"@),
        kind == LegacyKind::Value(SessionValueKind::ThinkingPins) ==> (file is Some <==> is_plain_id(
            session_id@,
        )) && (file matches Some(file) ==> file.at_home && file.dir == "session-thinking-variants"
            && file.name@ == session_id@ + ".json"@),
        kind == LegacyKind::Value(SessionValueKind::PromptFingerprint) ==> (file matches Some(file)
            && !file.at_home && file.dir == "prompt-fingerprints" && file.name@
            == digest::blake3_hex(session_id@) + ".sha256"@),
        kind == LegacyKind::ReplHistory ==> (file matches Some(file) && !file.at_home && file.dir
            == "repl-history" && file.name@.len() == session_id@.len() + ".jsonl"@.len()
            && forall|i: int|
            0 <= i < session_id@.len() ==> #[trigger] file.name@[i] == if is_plain(session_id@[i]) {
                session_id@[i]
            } else {
                '_'
            }),
{
}

/// An id is a file name as it is exactly where it has only letters and digits
/// of ASCII, underscores and hyphens, and at least one of them.
pub proof fn plain_ids_are_plain(session_id: &str, r: bool)
    requires
        call_ensures(is_plain_session_id, (session_id,), r),
    ensures
        r <==> session_id@.len() > 0 && forall|i: int|
            #![trigger session_id@[i]]
            0 <= i < session_id@.len() ==> ('a' <= session_id@[i] <= 'z' || 'A' <= session_id@[i]
                <= 'Z' || '0' <= session_id@[i] <= '9' || session_id@[i] == '_' || session_id@[i]
                == '-'),
{
    let id = session_id@;
    if r {
        assert forall|i: int| #![trigger id[i]] 0 <= i < id.len() implies ('a' <= id[i] <= 'z'
            || 'A' <= id[i] <= 'Z' || '0' <= id[i] <= '9' || id[i] == '_' || id[i] == '-') by {
            assert(is_plain(id[i]));
        }
    }
    if id.len() > 0 && forall|i: int|
        #![trigger id[i]]
        0 <= i < id.len() ==> ('a' <= id[i] <= 'z' || 'A' <= id[i] <= 'Z' || '0' <= id[i] <= '9'
            || id[i] == '_' || id[i] == '-') {
        assert forall|i: int| 0 <= i < id.len() implies is_plain(#[trigger] id[i]) by {}
    }
}

/// A path segment has the characters of the text, but `_` for each that could
/// not stand in one, and no more than 48.
pub proof fn segments_are_cut_after_48(raw: &str, out: String, i: int)
    requires
        call_ensures(safe_path_segment, (raw,), out),
        0 <= i < out@.len(),
    ensures
        out@.len() == if raw@.len() <= 48 {
            raw@.len()
        } else {
            48
        },
        is_plain(raw@[i]) || raw@[i] == '.' ==> out@[i] == raw@[i],
        !(is_plain(raw@[i]) || raw@[i] == '.') ==> out@[i] == '_',
{
}

/// What is taken over from an old file is its text, without the white space
/// around it for a fingerprint, and for lines those that are not blank, the
/// last 200 of them.
pub proof fn what_an_old_file_held_is_read(
    raw: &str,
    kind: LegacyKind,
    content: Option<LegacyContent>,
    none: Option<LegacyContent>,
)
    requires
        call_ensures(read_legacy, (Some(raw), kind), content),
        call_ensures(read_legacy, (None, kind), none),
    ensures
        none is None,
        kind == LegacyKind::Value(SessionValueKind::Todos) || kind == LegacyKind::Value(
            SessionValueKind::ThinkingPins,
        ) ==> (content matches Some(LegacyContent::Value(value)) && value@ == raw@),
        kind == LegacyKind::Value(SessionValueKind::PromptFingerprint) ==> (content matches Some(
            LegacyContent::Value(value),
        ) && value@ == text::trim(raw@)),
        kind == LegacyKind::ReplHistory ==> (content matches Some(LegacyContent::Lines(lines))
            && ({
            let all = text::lines(raw@);
            let said = |line: Seq<char>| text::trim(line).len() > 0;
            let n = table::count(all, said, all.len() as int);
            &&& lines@.len() == if n <= 200 {
                n
            } else {
                200
            }
            &&& forall|i: int|
                #![trigger all[i]]
                0 <= i < all.len() && said(all[i]) && table::count(all, said, i) >= n
                    - lines@.len() ==> lines@[table::count(all, said, i) - (n
                    - lines@.len())]@ == all[i]
        })),
{
    if kind == LegacyKind::ReplHistory {
        let all = text::lines(raw@);
        let said = |line: Seq<char>| text::trim(line).len() > 0;
        lemma_written(all, said);
        let written = written_lines(all);
        table::lemma_count(all, said, all.len() as int);
        if let Some(LegacyContent::Lines(lines)) = content {
            let n = written.len() as int;
            assert(text::views(lines@) == last_of(written, 200));
            assert(text::views(lines@).len() == lines@.len());
            assert forall|i: int|
                #![trigger all[i]]
                0 <= i < all.len() && said(all[i]) && table::count(all, said, i) >= n
                    - lines@.len() implies lines@[table::count(all, said, i) - (n
                - lines@.len())]@ == all[i] by {
                table::lemma_chosen_place(all, said, i);
                let k = table::count(all, said, i) - (n - lines@.len());
                assert(text::views(lines@)[k] == lines@[k]@);
            }
        }
    }
}

proof fn lemma_written(lines: Seq<Seq<char>>, said: spec_fn(Seq<char>) -> bool)
    requires
        forall|line: Seq<char>| #[trigger] said(line) == (text::trim(line).len() > 0),
    ensures
        written_lines(lines) == lines.filter(said),
    decreases lines.len(),
{
    reveal(Seq::filter);
    if lines.len() > 0 {
        lemma_written(lines.drop_last(), said);
        assert(said(lines.last()) == (text::trim(lines.last()).len() > 0));
    }
}

/// What goes with a session outside the tables are its old files of all kinds,
/// and its directories where they are named as it is.
pub proof fn all_files_of_a_session_go(session_id: &str, out: SessionFiles)
    requires
        call_ensures(session_files, (session_id,), out),
    ensures
        is_plain_id(session_id@) ==> out.files@.len() == 4 && out.files@[0].dir == "todos"
            && out.files@[1].dir == "prompt-fingerprints" && out.files@[2].dir
            == "session-thinking-variants" && out.files@[3].dir == "repl-history",
        !is_plain_id(session_id@) ==> out.files@.len() == 2 && out.files@[0].dir
            == "prompt-fingerprints" && out.files@[1].dir == "repl-history",
        is_plain_id(session_id@) && session_id@.len() <= 48 ==> out.dirs,
        !is_plain_id(session_id@) || session_id@.len() > 48 ==> !out.dirs,
{
    let id = session_id@;
    let all = places(id);
    let f = out.files@;
    reveal_with_fuel(are_at, 6);
    let p3 = all.drop_last();
    let p2 = p3.drop_last();
    let p1 = p2.drop_last();
    assert(all.last() == all[3] && p3.last() == all[2] && p2.last() == all[1] && p1.last()
        == all[0]);
    assert(p1.drop_last().len() == 0);
    if is_plain_id(id) {
        let f3 = f.drop_last();
        let f2 = f3.drop_last();
        let f1 = f2.drop_last();
        assert(are_at(f, all));
        assert(are_at(f3, p3));
        assert(are_at(f2, p2));
        assert(are_at(f1, p1));
        assert(are_at(f1.drop_last(), p1.drop_last()));
        assert(f1.drop_last().len() == 0);
        assert(f3.last() == f[2] && f2.last() == f[1] && f1.last() == f[0]);
        if id.len() <= 48 {
            assert(segment(id) =~= id) by {
                assert forall|i: int| 0 <= i < id.len() implies segment_char(id[i])
                    == #[trigger] id[i] by {
                    assert(is_plain(id[i]));
                }
            }
        }
    } else {
        let f1 = f.drop_last();
        assert(are_at(f, all));
        assert(are_at(f1, p3));
        assert(are_at(f1, p2));
        assert(are_at(f1.drop_last(), p1));
        assert(are_at(f1.drop_last(), p1.drop_last()));
        assert(f1.drop_last().len() == 0);
        assert(f1.last() == f[0]);
    }
}

} // verus!
