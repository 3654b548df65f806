//! Where programs are looked for.
//!
//! Programs that come with this one are in its directory, which need not be on
//! the search path it was given.

use vstd::prelude::*;

use crate::table;

verus! {

/// What stands between the directories of a search path.
pub const SEPARATOR: u8 = 58;

/// What stands between the names of a path.
pub const SLASH: u8 = 47;

/// The name of the directory itself.
pub const DOT: u8 = 46;

/// The directory a program is in.
#[derive(Debug)]
pub struct ProgramDir {
    pub bytes: Vec<u8>,
    /// Whether there is such a directory.
    pub there: bool,
}

/// What stands between the marks in some bytes. It is one more than there are
/// marks.
pub open spec fn parts(bytes: Seq<u8>, mark: u8) -> Seq<Seq<u8>>
    decreases bytes.len(),
{
    if bytes.len() == 0 {
        seq![Seq::<u8>::empty()]
    } else {
        let before = parts(bytes.drop_last(), mark);
        if bytes.last() == mark {
            before.push(Seq::empty())
        } else {
            before.drop_last().push(before.last().push(bytes.last()))
        }
    }
}

/// Whether a part of a path leads anywhere: it is neither empty nor the name
/// of the directory itself.
pub open spec fn leads(part: Seq<u8>) -> bool {
    part.len() > 0 && part != seq![DOT]
}

/// The names that a path leads through.
pub open spec fn names(path: Seq<u8>) -> Seq<Seq<u8>> {
    parts(path, SLASH).filter(|part: Seq<u8>| leads(part))
}

/// Whether a path starts at the root.
pub open spec fn is_absolute(path: Seq<u8>) -> bool {
    path.len() > 0 && path[0] == SLASH
}

/// Whether an absolute path is on a search path: a directory there starts at
/// the root too and leads through the same names.
pub open spec fn is_listed(path: Seq<u8>, dir: Seq<u8>) -> bool {
    exists|i: int|
        0 <= i < parts(path, SEPARATOR).len() && is_absolute(
            #[trigger] parts(path, SEPARATOR)[i],
        ) && names(parts(path, SEPARATOR)[i]) == names(dir)
}

/// Whether a directory can be put on a search path: its name does not hold
/// what stands between directories.
pub open spec fn can_join(dir: Seq<u8>) -> bool {
    forall|i: int| 0 <= i < dir.len() ==> #[trigger] dir[i] != SEPARATOR
}

/// Whether a directory is to be put on a search path.
pub open spec fn is_missing(path: Seq<u8>, dir: ProgramDir) -> bool {
    is_absolute(dir.bytes@) && dir.there && !is_listed(path, dir.bytes@) && can_join(dir.bytes@)
}

/// The search path with a directory at its end.
pub open spec fn with_dir(path: Seq<u8>, dir: Seq<u8>) -> Seq<u8> {
    path.push(SEPARATOR) + dir
}

/// The views of some byte strings.
pub open spec fn views(list: Seq<Vec<u8>>) -> Seq<Seq<u8>> {
    list.map(|i: int, part: Vec<u8>| part@)
}

/// A copy of some bytes.
fn copy_bytes(bytes: &Vec<u8>) -> (copy: Vec<u8>)
    ensures
        copy@ == bytes@,
{
    let mut copy: Vec<u8> = Vec::new();
    let mut i: usize = 0;
    while i < bytes.len()
        invariant
            i <= bytes@.len(),
            copy@ =~= bytes@.take(i as int),
        decreases bytes@.len() - i,
    {
        copy.push(bytes[i]);
        i += 1;
    }
    copy
}

/// What stands between the marks in some bytes.
pub fn split_parts(bytes: &Vec<u8>, mark: u8) -> (out: Vec<Vec<u8>>)
    ensures
        views(out@) == parts(bytes@, mark),
{
    let mut out: Vec<Vec<u8>> = Vec::new();
    let mut part: Vec<u8> = Vec::new();
    let mut i: usize = 0;
    assert(views(out@).push(part@) =~= parts(bytes@.take(0), mark));
    while i < bytes.len()
        invariant
            i <= bytes@.len(),
            views(out@).push(part@) == parts(bytes@.take(i as int), mark),
        decreases bytes@.len() - i,
    {
        let ghost before = views(out@).push(part@);
        let ghost grown = part@.push(bytes@[i as int]);
        proof {
            assert(bytes@.take(i + 1).drop_last() =~= bytes@.take(i as int));
            assert(before.drop_last() =~= views(out@));
        }
        if bytes[i] == mark {
            out.push(part);
            part = Vec::new();
            assert(views(out@) =~= before);
        } else {
            part.push(bytes[i]);
        }
        i += 1;
    }
    assert(bytes@.take(bytes@.len() as int) =~= bytes@);
    let ghost before = views(out@).push(part@);
    out.push(part);
    assert(views(out@) =~= before);
    out
}

/// Whether a part of a path leads anywhere.
fn leads_on(part: &Vec<u8>) -> (r: bool)
    ensures
        r == leads(part@),
{
    if part.len() == 1 {
        assert(part@ == seq![DOT] <==> part@[0] == DOT) by {
            if part@[0] == DOT {
                assert(part@ =~= seq![DOT]);
            }
        }
        part[0] != DOT
    } else {
        part.len() > 0
    }
}

/// The names that a path leads through.
pub fn path_names(path: &Vec<u8>) -> (out: Vec<Vec<u8>>)
    ensures
        views(out@) == names(path@),
{
    let split = split_parts(path, SLASH);
    let ghost whole = parts(path@, SLASH);
    let ghost test = |part: Seq<u8>| leads(part);
    let mut out: Vec<Vec<u8>> = Vec::new();
    let mut i: usize = 0;
    proof {
        reveal(Seq::filter);
        assert(whole.take(0) =~= Seq::<Seq<u8>>::empty());
        assert(views(out@) =~= whole.take(0).filter(test));
    }
    while i < split.len()
        invariant
            i <= split@.len(),
            views(split@) == whole,
            test == (|part: Seq<u8>| leads(part)),
            views(out@) == whole.take(i as int).filter(test),
        decreases split@.len() - i,
    {
        proof {
            reveal(Seq::filter);
            assert(whole.take(i + 1).drop_last() =~= whole.take(i as int));
            assert(whole.take(i + 1).last() == split@[i as int]@);
        }
        let ghost before = views(out@);
        if leads_on(&split[i]) {
            let name = copy_bytes(&split[i]);
            out.push(name);
            assert(views(out@) =~= before.push(name@));
        }
        i += 1;
    }
    assert(whole.take(whole.len() as int) =~= whole);
    out
}

/// Whether two byte strings are the same.
fn same_bytes(a: &Vec<u8>, b: &Vec<u8>) -> (r: bool)
    ensures
        r == (a@ == b@),
{
    if a.len() != b.len() {
        return false;
    }
    let mut i: usize = 0;
    while i < a.len()
        invariant
            i <= a@.len(),
            a@.len() == b@.len(),
            forall|k: int| 0 <= k < i ==> a@[k] == b@[k],
        decreases a@.len() - i,
    {
        if a[i] != b[i] {
            return false;
        }
        i += 1;
    }
    assert(a@ =~= b@);
    true
}

/// Whether two lists of names are the same.
fn same_names(a: &Vec<Vec<u8>>, b: &Vec<Vec<u8>>) -> (r: bool)
    ensures
        r == (views(a@) == views(b@)),
{
    if a.len() != b.len() {
        assert(views(a@).len() != views(b@).len());
        return false;
    }
    let mut i: usize = 0;
    while i < a.len()
        invariant
            i <= a@.len(),
            a@.len() == b@.len(),
            forall|k: int| 0 <= k < i ==> (#[trigger] a@[k])@ == b@[k]@,
        decreases a@.len() - i,
    {
        if !same_bytes(&a[i], &b[i]) {
            assert(views(a@)[i as int] != views(b@)[i as int]);
            return false;
        }
        i += 1;
    }
    assert(views(a@) =~= views(b@));
    true
}

/// Whether an absolute path is on a search path.
fn listed(path: &Vec<u8>, dir: &Vec<u8>) -> (r: bool)
    ensures
        r == is_listed(path@, dir@),
{
    let entries = split_parts(path, SEPARATOR);
    let wanted = path_names(dir);
    let mut i: usize = 0;
    while i < entries.len()
        invariant
            i <= entries@.len(),
            views(entries@) == parts(path@, SEPARATOR),
            views(wanted@) == names(dir@),
            forall|k: int|
                0 <= k < i ==> !(is_absolute(#[trigger] parts(path@, SEPARATOR)[k]) && names(
                    parts(path@, SEPARATOR)[k],
                ) == names(dir@)),
        decreases entries@.len() - i,
    {
        assert(entries@[i as int]@ == parts(path@, SEPARATOR)[i as int]);
        if entries[i].len() > 0 && entries[i][0] == SLASH {
            let found = path_names(&entries[i]);
            if same_names(&found, &wanted) {
                return true;
            }
        }
        i += 1;
    }
    assert(views(entries@).len() == entries@.len());
    false
}

/// The search path with the directory of a program at its end, or none where
/// nothing is to be changed: where there is no search path, no such directory,
/// or it is there already. At the end, so that the directories before it stay
/// as they were.
#[verifier::loop_isolation(false)]
pub fn path_with_executable_dir(path: Option<&Vec<u8>>, dir: Option<&ProgramDir>) -> (out: Option<
    Vec<u8>,
>)
    ensures
        match (path, dir) {
            (Some(path), Some(dir)) => match out {
                Some(out) => is_missing(path@, *dir) && out@ == with_dir(path@, dir.bytes@),
                None => !is_missing(path@, *dir),
            },
            _ => out is None,
        },
{
    let (path, dir) = match (path, dir) {
        (Some(path), Some(dir)) => (path, dir),
        _ => {
            return None;
        },
    };
    if dir.bytes.len() == 0 || dir.bytes[0] != SLASH || !dir.there {
        return None;
    }
    if listed(path, &dir.bytes) {
        return None;
    }
    let mut out = copy_bytes(path);
    out.push(SEPARATOR);
    let mut k: usize = 0;
    while k < dir.bytes.len()
        invariant
            k <= dir.bytes@.len(),
            forall|n: int| 0 <= n < k ==> #[trigger] dir.bytes@[n] != SEPARATOR,
            out@ =~= path@.push(SEPARATOR) + dir.bytes@.take(k as int),
        decreases dir.bytes@.len() - k,
    {
        if dir.bytes[k] == SEPARATOR {
            assert(!can_join(dir.bytes@));
            return None;
        }
        out.push(dir.bytes[k]);
        k += 1;
    }
    assert(out@ =~= with_dir(path@, dir.bytes@));
    Some(out)
}

// ---------------------------------------------------------------------------
// Laws
// ---------------------------------------------------------------------------

/// What was on the search path stays in its place.
pub proof fn the_rest_of_the_path_stays(path: Seq<u8>, dir: Seq<u8>)
    ensures
        with_dir(path, dir).take(path.len() as int) == path,
        with_dir(path, dir).skip((path.len() + 1) as int) == dir,
{
    assert(with_dir(path, dir).take(path.len() as int) =~= path);
    assert(with_dir(path, dir).skip((path.len() + 1) as int) =~= dir);
}

/// What stands between the marks of bytes and more bytes after a mark, where
/// the latter hold none.
proof fn lemma_parts_join(bytes: Seq<u8>, more: Seq<u8>, mark: u8)
    requires
        forall|i: int| 0 <= i < more.len() ==> #[trigger] more[i] != mark,
    ensures
        parts(bytes.push(mark) + more, mark) == parts(bytes, mark).push(more),
    decreases more.len(),
{
    if more.len() == 0 {
        assert(bytes.push(mark) + more =~= bytes.push(mark));
        assert(bytes.push(mark).drop_last() =~= bytes);
        assert(more =~= Seq::<u8>::empty());
    } else {
        let whole = bytes.push(mark) + more;
        assert(whole.drop_last() =~= bytes.push(mark) + more.drop_last());
        lemma_parts_join(bytes, more.drop_last(), mark);
        let before = parts(bytes, mark).push(more.drop_last());
        assert(before.drop_last() =~= parts(bytes, mark));
        assert(more.drop_last().push(more.last()) =~= more);
    }
}

/// A directory that was put on the search path is on it, so that doing it
/// again changes nothing.
pub proof fn a_directory_is_added_once(path: Seq<u8>, dir: ProgramDir)
    requires
        is_missing(path, dir),
    ensures
        is_listed(with_dir(path, dir.bytes@), dir.bytes@),
        !is_missing(with_dir(path, dir.bytes@), dir),
{
    lemma_parts_join(path, dir.bytes@, SEPARATOR);
    let after = parts(with_dir(path, dir.bytes@), SEPARATOR);
    assert(after[parts(path, SEPARATOR).len() as int] == dir.bytes@);
}

/// Some bytes one after the other with a mark between them.
pub open spec fn joined(parts: Seq<Seq<u8>>, mark: u8) -> Seq<u8>
    decreases parts.len(),
{
    if parts.len() == 0 {
        Seq::empty()
    } else if parts.len() == 1 {
        parts[0]
    } else {
        joined(parts.drop_last(), mark).push(mark) + parts.last()
    }
}

proof fn lemma_parts_joined(bytes: Seq<u8>, mark: u8)
    ensures
        parts(bytes, mark).len() > 0,
        joined(parts(bytes, mark), mark) == bytes,
        forall|i: int, j: int|
            0 <= i < parts(bytes, mark).len() && 0 <= j < parts(bytes, mark)[i].len()
                ==> #[trigger] parts(bytes, mark)[i][j] != mark,
    decreases bytes.len(),
{
    let all = parts(bytes, mark);
    if bytes.len() > 0 {
        let before = parts(bytes.drop_last(), mark);
        lemma_parts_joined(bytes.drop_last(), mark);
        assert(bytes =~= bytes.drop_last().push(bytes.last()));
        if bytes.last() == mark {
            assert(all.drop_last() =~= before);
            assert(joined(all, mark) =~= bytes);
        } else {
            let longer = before.last().push(bytes.last());
            assert(all == before.drop_last().push(longer));
            assert(all.drop_last() =~= before.drop_last());
            if before.len() == 1 {
                assert(joined(all, mark) =~= bytes);
            } else {
                assert(joined(all, mark) =~= joined(before, mark).push(bytes.last()));
            }
            assert forall|i: int, j: int|
                0 <= i < all.len() && 0 <= j < all[i].len() implies #[trigger] all[i][j] != mark by {
                if i < before.len() - 1 {
                    assert(all[i] == before[i]);
                    assert(before[i][j] != mark);
                } else if j < before.last().len() {
                    assert(all[i][j] == before[before.len() - 1][j]);
                }
            }
        }
    }
}

/// The parts of some bytes with the mark between them are the bytes, and no
/// part has the mark in it.
pub proof fn parts_are_between_marks(bytes: &Vec<u8>, mark: u8, out: Vec<Vec<u8>>)
    requires
        call_ensures(split_parts, (bytes, mark), out),
    ensures
        out@.len() > 0,
        joined(views(out@), mark) == bytes@,
        forall|i: int, j: int|
            0 <= i < out@.len() && 0 <= j < out@[i]@.len() ==> #[trigger] out@[i]@[j] != mark,
{
    lemma_parts_joined(bytes@, mark);
    assert(views(out@) == parts(bytes@, mark));
    assert forall|i: int, j: int| 0 <= i < out@.len() && 0 <= j < out@[i]@.len() implies #[trigger]
        out@[i]@[j] != mark by {
        assert(parts(bytes@, mark)[i] == out@[i]@);
        assert(parts(bytes@, mark)[i][j] != mark);
    }
}

/// The names of a path are what stands between its slashes, without what is
/// empty and without single dots, in order.
pub proof fn names_are_between_slashes(path: &Vec<u8>, out: Vec<Vec<u8>>, between: Vec<Vec<u8>>)
    requires
        call_ensures(path_names, (path,), out),
        call_ensures(split_parts, (path, 47u8), between),
    ensures
        table::is_rest(
            views(between@),
            views(out@),
            |part: Seq<u8>| part.len() == 0 || part == seq![46u8],
        ),
{
    let gone = |part: Seq<u8>| part.len() == 0 || part == seq![46u8];
    let chosen = |part: Seq<u8>| leads(part);
    table::lemma_chosen_rest(parts(path@, SLASH), chosen, gone);
    assert(names(path@) == parts(path@, SLASH).filter(chosen));
}

/// A directory is put at the end, behind a colon, where there is a search path,
/// the directory starts at the root, is there and has no colon in it, and no
/// directory of the search path that starts at the root has the same names; and
/// only there.
pub proof fn what_is_missing_is_added(
    path: &Vec<u8>,
    dir: &ProgramDir,
    out: Option<Vec<u8>>,
    dirs: Vec<Vec<u8>>,
)
    requires
        call_ensures(path_with_executable_dir, (Some(path), Some(dir)), out),
        call_ensures(split_parts, (path, 58u8), dirs),
    ensures
        out is Some <==> dir.bytes@.len() > 0 && dir.bytes@[0] == 47 && dir.there
            && !dir.bytes@.contains(58) && !(exists|i: int|
            0 <= i < dirs@.len() && (#[trigger] dirs@[i])@.len() > 0 && dirs@[i]@[0] == 47 && names(
                dirs@[i]@,
            ) == names(dir.bytes@)),
        out matches Some(longer) ==> longer@ == path@ + seq![58u8] + dir.bytes@,
{
    let listed = parts(path@, SEPARATOR);
    assert(views(dirs@) == listed);
    assert forall|i: int| 0 <= i < dirs@.len() implies (#[trigger] dirs@[i])@ == listed[i] by {}
    if is_listed(path@, dir.bytes@) {
        let i = choose|i: int|
            0 <= i < listed.len() && is_absolute(#[trigger] listed[i]) && names(listed[i]) == names(
                dir.bytes@,
            );
        assert(dirs@[i]@ == listed[i]);
    }
    if exists|i: int|
        0 <= i < dirs@.len() && (#[trigger] dirs@[i])@.len() > 0 && dirs@[i]@[0] == 47 && names(
            dirs@[i]@,
        ) == names(dir.bytes@) {
        let i = choose|i: int|
            0 <= i < dirs@.len() && (#[trigger] dirs@[i])@.len() > 0 && dirs@[i]@[0] == 47 && names(
                dirs@[i]@,
            ) == names(dir.bytes@);
        assert(is_absolute(listed[i]));
    }
    if let Some(longer) = out {
        assert(longer@ =~= path@ + seq![58u8] + dir.bytes@);
    }
}

/// Without a search path or a directory nothing is changed.
pub proof fn nothing_is_added_to_nothing(
    path: Option<&Vec<u8>>,
    dir: Option<&ProgramDir>,
    out: Option<Vec<u8>>,
)
    requires
        call_ensures(path_with_executable_dir, (path, dir), out),
        path is None || dir is None,
    ensures
        out is None,
{
}

} // verus!
