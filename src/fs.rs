use vstd::prelude::*;
use crate::error::FsError;
use crate::node::{
    child_ino, has_name, lemma_child_ino_at, lemma_child_ino_push, lemma_child_ino_remove, name_index, read_range, resized,
    with_mode, written, FileAttr, FileKind, Ino, NodeBody, NodeView, PyDirectory, PyFile,
    PySymlink, Timestamp, ROOT_INO,
};
use crate::tree::{
    attr_of, child_of, entry_resolves, insert_error, inserted, removed, rename_error, renamed,
    node_ok, without_entry, lemma_removed_wf, InodeTable,
};

verus! {

/// A time given to `setattr`: a fixed instant, or the time of the call.
#[derive(Clone, Copy, Debug, PartialEq, Eq, Structural)]
pub enum TimeOrNow {
    SpecificTime(Timestamp),
    Now,
}

pub open spec fn resolve_time(t: TimeOrNow, now: Timestamp) -> Timestamp {
    match t {
        TimeOrNow::SpecificTime(s) => s,
        TimeOrNow::Now => now,
    }
}

/// The permission bits kept from a mode word: its low twelve bits.
pub open spec fn perm_bits(mode: u32) -> u16 {
    (mode & 0o7777u32) as u16
}

fn mask_mode(mode: u32) -> (r: u16)
    ensures
        r == perm_bits(mode),
{
    (mode & 0o7777u32) as u16
}

/// One line of a directory listing; `offset` is the position to resume after it.
pub struct DirEntry {
    pub ino: Ino,
    pub kind: FileKind,
    pub name: String,
    pub offset: u64,
}

/// Fixed capacity figures reported by `statfs`.
#[derive(Clone, Copy, Debug, PartialEq, Eq, Structural)]
pub struct StatFs {
    pub blocks: u64,
    pub bfree: u64,
    pub bavail: u64,
    pub files: u64,
    pub ffree: u64,
    pub bsize: u32,
    pub namelen: u32,
    pub frsize: u32,
}

/// The attributes of the node that `ino` names, or `NotFound`.
pub open spec fn attr_result(t: InodeTable, ino: Ino) -> Result<FileAttr, FsError> {
    if t@.contains_key(ino) {
        Ok(attr_of(t@[ino], t.spec_uid(), t.spec_gid()))
    } else {
        Err(FsError::NotFound)
    }
}

/// Resolves `name` in directory `parent`.
pub fn lookup(t: &InodeTable, parent: Ino, name: &str) -> (r: Result<FileAttr, FsError>)
    requires
        t.wf(),
    ensures
        r == match child_of(t@, parent, name@) {
            Some(c) => attr_result(*t, c),
            None => Err(FsError::NotFound),
        },
{
    match t.lookup(parent, name) {
        Some(c) => getattr(t, c),
        None => Err(FsError::NotFound),
    }
}

/// The attributes of node `ino`.
pub fn getattr(t: &InodeTable, ino: Ino) -> (r: Result<FileAttr, FsError>)
    requires
        t.wf(),
    ensures
        r == attr_result(*t, ino),
{
    match t.getattr(ino) {
        Some(a) => Ok(a),
        None => Err(FsError::NotFound),
    }
}

/// Why `setattr` refuses, if it does: the node is missing, or a file is to be
/// resized to a length that memory cannot index.
pub open spec fn setattr_error(m: Map<Ino, NodeView>, ino: Ino, size: Option<u64>) -> Option<FsError> {
    if !m.contains_key(ino) {
        Some(FsError::NotFound)
    } else if m[ino].is_file() && size is Some && size->0 > usize::MAX {
        Some(FsError::InvalidArgument)
    } else {
        None
    }
}

/// Node `n` after `setattr`: resized first (files only), then given the mode
/// (not symlinks), then given the times, which also set its change time.
pub open spec fn setattr_node(
    n: NodeView,
    mode: Option<u32>,
    size: Option<u64>,
    atime: Option<TimeOrNow>,
    mtime: Option<TimeOrNow>,
    now: Timestamp,
) -> NodeView {
    let n1 = if n.is_file() && size is Some {
        n.with_content(resized(n.content(), size->0 as nat)).touched(now)
    } else {
        n
    };
    let n2 = match mode {
        Some(m) => with_mode(n1, perm_bits(m)),
        None => n1,
    };
    if atime is Some || mtime is Some {
        NodeView {
            atime: match atime {
                Some(t) => resolve_time(t, now),
                None => n2.atime,
            },
            mtime: match mtime {
                Some(t) => resolve_time(t, now),
                None => n2.mtime,
            },
            ctime: now,
            ..n2
        }
    } else {
        n2
    }
}

/// Changes size, permission bits and times of node `ino`, and returns its new attributes.
pub fn setattr(
    t: &mut InodeTable,
    ino: Ino,
    mode: Option<u32>,
    size: Option<u64>,
    atime: Option<TimeOrNow>,
    mtime: Option<TimeOrNow>,
    now: Timestamp,
) -> (r: Result<FileAttr, FsError>)
    requires
        old(t).wf(),
    ensures
        final(t).wf(),
        final(t).next_id() == old(t).next_id(),
        final(t).spec_uid() == old(t).spec_uid(),
        final(t).spec_gid() == old(t).spec_gid(),
        match setattr_error(old(t)@, ino, size) {
            Some(e) => r == Err::<FileAttr, FsError>(e) && final(t)@ == old(t)@,
            None => {
                &&& final(t)@ == old(t)@.insert(
                    ino,
                    setattr_node(old(t)@[ino], mode, size, atime, mtime, now),
                )
                &&& r == attr_result(*final(t), ino)
            },
        },
{
    if t.get(ino).is_none() {
        return Err(FsError::NotFound);
    }
    if let Some(new_size) = size {
        if t.get_file(ino).is_some() {
            if new_size > usize::MAX as u64 {
                return Err(FsError::InvalidArgument);
            }
            t.truncate_file(ino, new_size as usize, now);
        }
    }
    if let Some(m) = mode {
        t.set_mode(ino, mask_mode(m));
    }
    if atime.is_some() || mtime.is_some() {
        let a = match atime {
            Some(TimeOrNow::SpecificTime(s)) => Some(s),
            Some(TimeOrNow::Now) => Some(now),
            None => None,
        };
        let m = match mtime {
            Some(TimeOrNow::SpecificTime(s)) => Some(s),
            Some(TimeOrNow::Now) => Some(now),
            None => None,
        };
        t.set_times(ino, a, m, now);
    }
    getattr(t, ino)
}

/// Bytes `[offset, offset + size)` of file `ino`, stopping at its end.
pub fn read(t: &InodeTable, ino: Ino, offset: u64, size: u32) -> (r: Result<Vec<u8>, FsError>)
    requires
        t.wf(),
    ensures
        match r {
            Ok(b) => t@.contains_key(ino) && t@[ino].is_file() && b@ == read_range(
                t@[ino].content(),
                offset as nat,
                size as nat,
            ),
            Err(e) => e == FsError::NotFound && !(t@.contains_key(ino) && t@[ino].is_file()),
        },
{
    match t.get_file(ino) {
        Some(f) => Ok(f.read_at(offset, size)),
        None => Err(FsError::NotFound),
    }
}

/// Why a write of `len` bytes at `offset` to `ino` is refused, if it is.
pub open spec fn write_error(m: Map<Ino, NodeView>, ino: Ino, offset: u64, len: nat) -> Option<
    FsError,
> {
    if !(m.contains_key(ino) && m[ino].is_file()) {
        Some(FsError::NotFound)
    } else if offset + len > usize::MAX {
        Some(FsError::InvalidArgument)
    } else {
        None
    }
}

/// Writes `data` at `offset` in file `ino`, zero-extending it first where it is too
/// short; returns the number of bytes written, which is all of them.
pub fn write(t: &mut InodeTable, ino: Ino, offset: u64, data: &[u8], now: Timestamp) -> (r: Result<
    usize,
    FsError,
>)
    requires
        old(t).wf(),
    ensures
        final(t).wf(),
        final(t).next_id() == old(t).next_id(),
        final(t).spec_uid() == old(t).spec_uid(),
        final(t).spec_gid() == old(t).spec_gid(),
        match write_error(old(t)@, ino, offset, data@.len()) {
            Some(e) => r == Err::<usize, FsError>(e) && final(t)@ == old(t)@,
            None => {
                &&& r == Ok::<usize, FsError>(data@.len() as usize)
                &&& final(t)@ == old(t)@.insert(
                    ino,
                    old(t)@[ino].with_content(
                        written(old(t)@[ino].content(), offset as nat, data@),
                    ).touched(now),
                )
            },
        },
{
    if t.get_file(ino).is_none() {
        return Err(FsError::NotFound);
    }
    if offset > usize::MAX as u64 || data.len() > usize::MAX - offset as usize {
        return Err(FsError::InvalidArgument);
    }
    t.write_file(ino, offset as usize, data, now);
    Ok(data.len())
}

/// The full listing of directory `d`: itself as ".", its parent as "..", then its entries.
pub open spec fn listing(m: Map<Ino, NodeView>, d: Ino) -> Seq<(Ino, FileKind, Seq<char>)> {
    seq![(d, FileKind::Directory, seq!['.']), (m[d].parent, FileKind::Directory, seq!['.', '.'])]
        + m[d].children().map_values(
        |e: (Seq<char>, Ino)| (e.1, m[e.1].kind(), e.0),
    )
}

/// The listing of directory `ino` from position `offset` on; each line carries its
/// own position, counted from one.
pub fn readdir(t: &InodeTable, ino: Ino, offset: u64) -> (r: Result<Vec<DirEntry>, FsError>)
    requires
        t.wf(),
    ensures
        match r {
            Ok(v) => {
                let l = listing(t@, ino);
                &&& t@.contains_key(ino) && t@[ino].is_dir()
                &&& v@.len() == if offset < l.len() {
                    l.len() - offset
                } else {
                    0
                }
                &&& forall|i: int|
                    0 <= i < v@.len() ==> {
                        let e = #[trigger] v@[i];
                        &&& (e.ino, e.kind, e.name@) == l[offset + i]
                        &&& e.offset == offset + i + 1
                    }
            },
            Err(e) => {
                ||| e == FsError::NotDirectory && !(t@.contains_key(ino) && t@[ino].is_dir())
                ||| e == FsError::InvalidArgument && t@.contains_key(ino) && t@[ino].is_dir()
                    && listing(t@, ino).len() > usize::MAX
            },
        },
{
    let d = match t.get_dir(ino) {
        Some(d) => d,
        None => {
            return Err(FsError::NotDirectory);
        },
    };
    let ghost l = listing(t@, ino);
    let n = d.children.len();
    let mut out: Vec<DirEntry> = Vec::new();
    if n > usize::MAX - 2 {
        return Err(FsError::InvalidArgument);
    }
    if offset >= (n + 2) as u64 {
        proof {
            assert(t@[ino].children().len() == n);
        }
        return Ok(out);
    }
    let mut pos: usize = offset as usize;
    while pos < n + 2
        invariant
            t.wf(),
            t@.contains_key(ino),
            d@ == t@[ino],
            n == d.children@.len(),
            n <= usize::MAX - 2,
            l == listing(t@, ino),
            l.len() == n + 2,
            offset <= pos <= n + 2,
            out@.len() == pos - offset,
            forall|i: int|
                0 <= i < out@.len() ==> {
                    let e = #[trigger] out@[i];
                    &&& (e.ino, e.kind, e.name@) == l[offset + i]
                    &&& e.offset == offset + i + 1
                },
        decreases n + 2 - pos,
    {
        let entry = if pos == 0 {
            proof {
                reveal_strlit(".");
            }
            DirEntry { ino, kind: FileKind::Directory, name: ".".to_owned(), offset: 1 }
        } else if pos == 1 {
            proof {
                reveal_strlit("..");
            }
            DirEntry { ino: d.parent_ino, kind: FileKind::Directory, name: "..".to_owned(), offset: 2 }
        } else {
            let (name, c) = (&d.children[pos - 2].0, d.children[pos - 2].1);
            proof {
                assert(t@[ino].children()[pos - 2] == (name@, c));
                assert(node_ok(t@, ino, t.next_id()));
                assert(entry_resolves(t@, ino, t@[ino].children()[pos - 2]));
            }
            let kind = match t.get(c) {
                Some(node) => node.kind(),
                None => {
                    proof {
                        assert(false);
                    }
                    FileKind::File
                },
            };
            DirEntry { ino: c, kind, name: name.clone(), offset: (pos + 1) as u64 }
        };
        out.push(entry);
        pos = pos + 1;
    }
    Ok(out)
}

/// A detached file named `name`, empty, with permission `mode`, made at `now`.
pub open spec fn new_file_view(name: Seq<char>, mode: u16, now: Timestamp) -> NodeView {
    NodeView {
        name,
        ino: 0,
        parent: 0,
        atime: now,
        mtime: now,
        ctime: now,
        body: NodeBody::File { content: Seq::empty(), mode },
    }
}

/// A detached, empty directory named `name` with permission `mode`, made at `now`.
pub open spec fn new_dir_view(name: Seq<char>, mode: u16, now: Timestamp) -> NodeView {
    NodeView {
        name,
        ino: 0,
        parent: 0,
        atime: now,
        mtime: now,
        ctime: now,
        body: NodeBody::Dir { mode, children: Seq::empty() },
    }
}

/// A detached symlink named `name` to `target`, made at `now`.
pub open spec fn new_symlink_view(name: Seq<char>, target: Seq<char>, now: Timestamp) -> NodeView {
    NodeView {
        name,
        ino: 0,
        parent: 0,
        atime: now,
        mtime: now,
        ctime: now,
        body: NodeBody::Symlink { target },
    }
}

/// What a creating call (`create`, `mkdir`, `symlink`) owes: refused exactly as
/// insertion is, with nothing changed; else `node` is inserted under the next
/// identifier and its attributes are returned.
pub open spec fn created(
    before: InodeTable,
    after: InodeTable,
    parent: Ino,
    node: NodeView,
    now: Timestamp,
    r: Result<FileAttr, FsError>,
) -> bool {
    &&& after.wf()
    &&& after.spec_uid() == before.spec_uid()
    &&& after.spec_gid() == before.spec_gid()
    &&& match insert_error(before@, before.next_id(), parent, node.name) {
        Some(e) => r == Err::<FileAttr, FsError>(e) && after@ == before@ && after.next_id()
            == before.next_id(),
        None => {
            &&& after.next_id() == before.next_id() + 1
            &&& after@ == inserted(before@, parent, node, before.next_id(), now)
            &&& r == attr_result(after, before.next_id())
        },
    }
}

/// Creates an empty file `name` in `parent` with the permission bits of `mode`.
pub fn create(t: &mut InodeTable, parent: Ino, name: &str, mode: u32, now: Timestamp) -> (r: Result<
    FileAttr,
    FsError,
>)
    requires
        old(t).wf(),
    ensures
        created(*old(t), *final(t), parent, new_file_view(name@, perm_bits(mode), now), now, r),
{
    let file = PyFile::new(name.to_owned(), None, mask_mode(mode), now);
    match t.insert_file(parent, file, now) {
        Ok(ino) => getattr(t, ino),
        Err(e) => Err(e),
    }
}

/// Creates an empty directory `name` in `parent` with the permission bits of `mode`.
pub fn mkdir(t: &mut InodeTable, parent: Ino, name: &str, mode: u32, now: Timestamp) -> (r: Result<
    FileAttr,
    FsError,
>)
    requires
        old(t).wf(),
    ensures
        created(*old(t), *final(t), parent, new_dir_view(name@, perm_bits(mode), now), now, r),
{
    let dir = PyDirectory::new(name.to_owned(), mask_mode(mode), now);
    proof {
        assert(dir.children@.len() == 0) by {
            assert(dir@.children().len() == 0);
        }
    }
    match t.insert_dir(parent, dir, now) {
        Ok(ino) => getattr(t, ino),
        Err(e) => Err(e),
    }
}

/// Creates a symlink `name` in `parent` whose target is `target`, stored as given.
pub fn symlink(t: &mut InodeTable, parent: Ino, name: &str, target: &str, now: Timestamp) -> (r:
    Result<FileAttr, FsError>)
    requires
        old(t).wf(),
    ensures
        created(*old(t), *final(t), parent, new_symlink_view(name@, target@, now), now, r),
{
    let link = PySymlink::new(name.to_owned(), target.to_owned(), now);
    match t.insert_symlink(parent, link, now) {
        Ok(ino) => getattr(t, ino),
        Err(e) => Err(e),
    }
}

/// The target of symlink `ino`.
pub fn readlink(t: &InodeTable, ino: Ino) -> (r: Result<String, FsError>)
    ensures
        match r {
            Ok(s) => t@.contains_key(ino) && t@[ino].is_symlink() && s@ == t@[ino].target(),
            Err(e) => e == FsError::NotFound && !(t@.contains_key(ino) && t@[ino].is_symlink()),
        },
{
    match t.get_symlink(ino) {
        Some(s) => Ok(s.target.clone()),
        None => Err(FsError::NotFound),
    }
}

/// What a removing call (`unlink`, `rmdir`) owes: refused with `err`, nothing
/// changed; or the entry's node removed.
pub open spec fn removal(
    before: InodeTable,
    after: InodeTable,
    parent: Ino,
    name: Seq<char>,
    now: Timestamp,
    err: Option<FsError>,
    r: Result<(), FsError>,
) -> bool {
    &&& after.wf()
    &&& after.next_id() == before.next_id()
    &&& after.spec_uid() == before.spec_uid()
    &&& after.spec_gid() == before.spec_gid()
    &&& match err {
        Some(e) => r == Err::<(), FsError>(e) && after@ == before@,
        None => r == Ok::<(), FsError>(()) && after@ == removed(
            before@,
            child_of(before@, parent, name)->0,
            now,
        ),
    }
}

/// Why `unlink` refuses, if it does.
pub open spec fn unlink_error(m: Map<Ino, NodeView>, parent: Ino, name: Seq<char>) -> Option<FsError> {
    match child_of(m, parent, name) {
        None => Some(FsError::NotFound),
        Some(c) => if m[c].is_dir() {
            Some(FsError::IsDirectory)
        } else {
            None
        },
    }
}

/// Why `rmdir` refuses, if it does.
pub open spec fn rmdir_error(m: Map<Ino, NodeView>, parent: Ino, name: Seq<char>) -> Option<FsError> {
    match child_of(m, parent, name) {
        None => Some(FsError::NotFound),
        Some(c) => if !m[c].is_dir() {
            Some(FsError::NotDirectory)
        } else if m[c].children().len() > 0 {
            Some(FsError::NotEmpty)
        } else {
            None
        },
    }
}

pub(crate) proof fn lemma_child_live(t: InodeTable, parent: Ino, name: Seq<char>)
    requires
        t.wf(),
        child_of(t@, parent, name) is Some,
    ensures
        t@.contains_key(child_of(t@, parent, name)->0),
        child_of(t@, parent, name)->0 != ROOT_INO,
        t@[child_of(t@, parent, name)->0].parent == parent,
        t@[child_of(t@, parent, name)->0].name == name,
{
    let cs = t@[parent].children();
    let i = name_index(cs, name);
    assert(node_ok(t@, parent, t.next_id()));
    assert(entry_resolves(t@, parent, cs[i]));
}

/// Removes the file or symlink `name` from `parent`.
pub fn unlink(t: &mut InodeTable, parent: Ino, name: &str, now: Timestamp) -> (r: Result<(), FsError>)
    requires
        old(t).wf(),
    ensures
        removal(*old(t), *final(t), parent, name@, now, unlink_error(old(t)@, parent, name@), r),
{
    let c = match t.lookup(parent, name) {
        Some(c) => c,
        None => {
            return Err(FsError::NotFound);
        },
    };
    proof {
        lemma_child_live(*t, parent, name@);
    }
    if t.get_dir(c).is_some() {
        return Err(FsError::IsDirectory);
    }
    match t.remove(c, now) {
        Some(_) => Ok(()),
        None => {
            proof {
                assert(false);
            }
            Err(FsError::NotFound)
        },
    }
}

/// Removes the empty directory `name` from `parent`.
pub fn rmdir(t: &mut InodeTable, parent: Ino, name: &str, now: Timestamp) -> (r: Result<(), FsError>)
    requires
        old(t).wf(),
    ensures
        removal(*old(t), *final(t), parent, name@, now, rmdir_error(old(t)@, parent, name@), r),
{
    let c = match t.lookup(parent, name) {
        Some(c) => c,
        None => {
            return Err(FsError::NotFound);
        },
    };
    proof {
        lemma_child_live(*t, parent, name@);
    }
    match t.get_dir(c) {
        Some(d) => {
            if d.children.len() != 0 {
                return Err(FsError::NotEmpty);
            }
        },
        None => {
            return Err(FsError::NotDirectory);
        },
    }
    match t.remove(c, now) {
        Some(_) => Ok(()),
        None => {
            proof {
                assert(false);
            }
            Err(FsError::NotFound)
        },
    }
}

/// Why `rename` refuses, if it does. An existing destination must match the
/// source's kind and, as a directory, be empty; a destination that is the source
/// itself is no error.
pub open spec fn rename_refusal(
    m: Map<Ino, NodeView>,
    parent: Ino,
    name: Seq<char>,
    new_parent: Ino,
    new_name: Seq<char>,
) -> Option<FsError> {
    match child_of(m, parent, name) {
        None => Some(FsError::NotFound),
        Some(s) => match child_of(m, new_parent, new_name) {
            Some(d) => if d == s {
                None
            } else if m[s].is_dir() != m[d].is_dir() {
                if m[d].is_dir() {
                    Some(FsError::IsDirectory)
                } else {
                    Some(FsError::NotDirectory)
                }
            } else if m[d].children().len() > 0 {
                Some(FsError::NotEmpty)
            } else {
                None
            },
            None => rename_error(m, parent, name, new_parent, new_name),
        },
    }
}

/// The table after a `rename` that is not refused: an existing destination is
/// removed first, then the source is moved; onto itself, nothing changes.
pub open spec fn rename_outcome(
    m: Map<Ino, NodeView>,
    parent: Ino,
    name: Seq<char>,
    new_parent: Ino,
    new_name: Seq<char>,
    now: Timestamp,
) -> Map<Ino, NodeView> {
    match child_of(m, new_parent, new_name) {
        Some(d) => if d == child_of(m, parent, name)->0 {
            m
        } else {
            renamed(removed(m, d, now), parent, name, new_parent, new_name, now)
        },
        None => renamed(m, parent, name, new_parent, new_name, now),
    }
}

/// Once an existing destination has passed the checks and been removed, the move
/// itself cannot be refused.
proof fn lemma_overwrite_ready(
    t: InodeTable,
    parent: Ino,
    name: Seq<char>,
    new_parent: Ino,
    new_name: Seq<char>,
    now: Timestamp,
)
    requires
        t.wf(),
        rename_refusal(t@, parent, name, new_parent, new_name) is None,
        child_of(t@, parent, name) is Some,
        child_of(t@, new_parent, new_name) is Some,
        child_of(t@, new_parent, new_name) != child_of(t@, parent, name),
    ensures
        rename_error(
            removed(t@, child_of(t@, new_parent, new_name)->0, now),
            parent,
            name,
            new_parent,
            new_name,
        ) is None,
{
    let m = t@;
    let s = child_of(m, parent, name)->0;
    let d = child_of(m, new_parent, new_name)->0;
    lemma_child_live(t, parent, name);
    lemma_child_live(t, new_parent, new_name);
    let cs = m[new_parent].children();
    let idx = name_index(cs, new_name);
    assert(node_ok(m, d, t.next_id()));
    assert(node_ok(m, new_parent, t.next_id()));
    assert(has_name(cs, new_name));
    let w = choose|i: int| 0 <= i < cs.len() && #[trigger] cs[i].0 == new_name;
    lemma_child_ino_at(cs, w);
    if new_parent == d {
        assert(m[d].children().len() > 0);
    }
    if parent == d {
        let ps = m[parent].children();
        let pi = name_index(ps, name);
        assert(has_name(ps, name));
        let v = choose|i: int| 0 <= i < ps.len() && #[trigger] ps[i].0 == name;
        assert(ps.len() > 0);
    }
    let m2 = removed(m, d, now);
    lemma_child_ino_remove(cs, idx, new_name);
    if parent == new_parent {
        lemma_child_ino_remove(cs, idx, name);
    }
    assert(m2.contains_key(parent));
    assert(child_of(m2, parent, name) == Some(s));
    assert(!has_name(m2[new_parent].children(), new_name));
}

/// Moves the entry `name` of `parent` to `new_name` in `new_parent`, replacing a
/// destination of the same kind (an empty one, for directories).
pub fn rename(
    t: &mut InodeTable,
    parent: Ino,
    name: &str,
    new_parent: Ino,
    new_name: &str,
    now: Timestamp,
) -> (r: Result<(), FsError>)
    requires
        old(t).wf(),
    ensures
        final(t).wf(),
        final(t).next_id() == old(t).next_id(),
        final(t).spec_uid() == old(t).spec_uid(),
        final(t).spec_gid() == old(t).spec_gid(),
        match rename_refusal(old(t)@, parent, name@, new_parent, new_name@) {
            Some(e) => r == Err::<(), FsError>(e) && final(t)@ == old(t)@,
            None => r == Ok::<(), FsError>(()) && final(t)@ == rename_outcome(
                old(t)@,
                parent,
                name@,
                new_parent,
                new_name@,
                now,
            ),
        },
{
    let ghost m = t@;
    let src = match t.lookup(parent, name) {
        Some(s) => s,
        None => {
            return Err(FsError::NotFound);
        },
    };
    proof {
        lemma_child_live(*t, parent, name@);
    }
    if let Some(dst) = t.lookup(new_parent, new_name) {
        if dst == src {
            return Ok(());
        }
        proof {
            lemma_child_live(*t, new_parent, new_name@);
        }
        let src_is_dir = t.get_dir(src).is_some();
        let (dst_is_dir, dst_empty) = match t.get_dir(dst) {
            Some(d) => (true, d.children.len() == 0),
            None => (false, true),
        };
        if src_is_dir != dst_is_dir {
            return Err(
                if dst_is_dir {
                    FsError::IsDirectory
                } else {
                    FsError::NotDirectory
                },
            );
        }
        if !dst_empty {
            return Err(FsError::NotEmpty);
        }
        proof {
            lemma_overwrite_ready(*t, parent, name@, new_parent, new_name@, now);
        }
        if t.remove(dst, now).is_none() {
            proof {
                assert(false);
            }
            return Err(FsError::NotFound);
        }
    }
    match t.rename(parent, name, new_parent, new_name, now) {
        Ok(()) => Ok(()),
        Err(e) => Err(e),
    }
}
/// `rmdir` refuses a directory that has an entry, with `NotEmpty`, and removes one
/// that has none.
pub proof fn lemma_rmdir_needs_empty(m: Map<Ino, NodeView>, parent: Ino, name: Seq<char>)
    requires
        child_of(m, parent, name) is Some,
        m[child_of(m, parent, name)->0].is_dir(),
    ensures
        m[child_of(m, parent, name)->0].children().len() > 0 ==> rmdir_error(m, parent, name)
            == Some(FsError::NotEmpty),
        m[child_of(m, parent, name)->0].children().len() == 0 ==> rmdir_error(m, parent, name)
            is None,
{
}

/// Renaming a directory onto another, non-empty directory is refused with
/// `NotEmpty` (and a refused `rename` changes nothing).
pub proof fn lemma_rename_onto_nonempty_dir(
    m: Map<Ino, NodeView>,
    parent: Ino,
    name: Seq<char>,
    new_parent: Ino,
    new_name: Seq<char>,
)
    requires
        child_of(m, parent, name) is Some,
        child_of(m, new_parent, new_name) is Some,
        child_of(m, parent, name) != child_of(m, new_parent, new_name),
        m[child_of(m, parent, name)->0].is_dir(),
        m[child_of(m, new_parent, new_name)->0].is_dir(),
        m[child_of(m, new_parent, new_name)->0].children().len() > 0,
    ensures
        rename_refusal(m, parent, name, new_parent, new_name) == Some(FsError::NotEmpty),
{
}

/// Renaming file `a` onto another file `b` succeeds; afterwards `b` is gone, the
/// destination name lists `a`, and the source name no longer does.
pub proof fn lemma_rename_onto_file(
    t: InodeTable,
    parent: Ino,
    name: Seq<char>,
    new_parent: Ino,
    new_name: Seq<char>,
    now: Timestamp,
)
    requires
        t.wf(),
        child_of(t@, parent, name) is Some,
        child_of(t@, new_parent, new_name) is Some,
        child_of(t@, parent, name) != child_of(t@, new_parent, new_name),
        t@[child_of(t@, parent, name)->0].is_file(),
        t@[child_of(t@, new_parent, new_name)->0].is_file(),
    ensures
        ({
            let a = child_of(t@, parent, name)->0;
            let b = child_of(t@, new_parent, new_name)->0;
            let after = rename_outcome(t@, parent, name, new_parent, new_name, now);
            &&& rename_refusal(t@, parent, name, new_parent, new_name) is None
            &&& !after.contains_key(b)
            &&& after.contains_key(a)
            &&& child_of(after, new_parent, new_name) == Some(a)
            &&& child_of(after, parent, name) is None
        }),
{
    let m = t@;
    let a = child_of(m, parent, name)->0;
    let b = child_of(m, new_parent, new_name)->0;
    lemma_child_live(t, parent, name);
    lemma_child_live(t, new_parent, new_name);
    lemma_overwrite_ready(t, parent, name, new_parent, new_name, now);
    lemma_removed_wf(m, t.next_id(), b, now);
    let m1 = removed(m, b, now);
    assert(child_of(m1, parent, name) == Some(a));
    let ps = m1[parent].children();
    let idx = name_index(ps, name);
    assert(node_ok(m1, parent, t.next_id()));
    assert(has_name(ps, name));
    let w = choose|i: int| 0 <= i < ps.len() && #[trigger] ps[i].0 == name;
    lemma_child_ino_at(ps, w);
    lemma_child_ino_remove(ps, idx, name);
    let md = without_entry(m1, parent, idx, now);
    let mr = md.insert(a, NodeView { name: new_name, parent: new_parent, ctime: now, ..md[a] });
    assert(node_ok(m1, new_parent, t.next_id()));
    let ns = m1[new_parent].children();
    if new_parent == parent {
        lemma_child_ino_remove(ps, idx, new_name);
        assert(child_ino(ps.remove(idx), new_name) is None);
    } else {
        assert(mr[new_parent].children() == ns);
    }
    let qs = mr[new_parent].children();
    assert(!has_name(qs, new_name));
    lemma_child_ino_push(qs, new_name, a, new_name);
    lemma_child_ino_push(qs, new_name, a, name);
    assert(rename_outcome(m, parent, name, new_parent, new_name, now) == renamed(
        m1,
        parent,
        name,
        new_parent,
        new_name,
        now,
    ));
}

/// Succeeds when `ino` is a regular file.
pub fn open(t: &InodeTable, ino: Ino) -> (r: Result<(), FsError>)
    ensures
        r is Ok <==> t@.contains_key(ino) && t@[ino].is_file(),
        r is Err ==> r == Err::<(), FsError>(FsError::NotFound),
{
    match t.get_file(ino) {
        Some(_) => Ok(()),
        None => Err(FsError::NotFound),
    }
}

/// Succeeds when `ino` is a directory.
pub fn opendir(t: &InodeTable, ino: Ino) -> (r: Result<(), FsError>)
    ensures
        r is Ok <==> t@.contains_key(ino) && t@[ino].is_dir(),
        r is Err ==> r == Err::<(), FsError>(FsError::NotFound),
{
    match t.get_dir(ino) {
        Some(_) => Ok(()),
        None => Err(FsError::NotFound),
    }
}

/// Succeeds when `ino` exists; permission bits are not enforced.
pub fn access(t: &InodeTable, ino: Ino) -> (r: Result<(), FsError>)
    ensures
        r is Ok <==> t@.contains_key(ino),
        r is Err ==> r == Err::<(), FsError>(FsError::NotFound),
{
    match t.get(ino) {
        Some(_) => Ok(()),
        None => Err(FsError::NotFound),
    }
}

/// Blocks reported by `statfs`: a terabyte of 1 KiB blocks.
pub const STATFS_BLOCKS: u64 = 1024 * 1024 * 1024;

/// Synthetic capacity figures, not derived from the tree.
pub fn statfs() -> (r: StatFs)
    ensures
        r == (StatFs {
            blocks: STATFS_BLOCKS,
            bfree: STATFS_BLOCKS,
            bavail: STATFS_BLOCKS,
            files: 1_000_000,
            ffree: 1_000_000,
            bsize: 1024,
            namelen: 255,
            frsize: 0,
        }),
{
    StatFs {
        blocks: STATFS_BLOCKS,
        bfree: STATFS_BLOCKS,
        bavail: STATFS_BLOCKS,
        files: 1_000_000,
        ffree: 1_000_000,
        bsize: 1024,
        namelen: 255,
        frsize: 0,
    }
}

} // verus!
