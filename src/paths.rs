use vstd::prelude::*;
use vstd::string::StrSliceExecFns;
use crate::error::FsError;
use crate::fs::{
    lemma_child_live, new_dir_view, new_file_view, new_symlink_view, rename_outcome, rename_refusal,
};
use crate::node::{Ino, NodeRef, NodeView, PyDirectory, PyFile, PySymlink, Timestamp, ROOT_INO};
use crate::tree::{child_of, insert_error, inserted, node_ok, removed, InodeTable};

verus! {

/// Splits `p` at each '/': the components finished so far and the one in progress.
pub open spec fn scan(p: Seq<char>) -> (Seq<Seq<char>>, Seq<char>)
    decreases p.len(),
{
    if p.len() == 0 {
        (Seq::empty(), Seq::empty())
    } else {
        let (done, cur) = scan(p.drop_last());
        if p.last() == '/' {
            if cur.len() > 0 {
                (done.push(cur), Seq::empty())
            } else {
                (done, cur)
            }
        } else {
            (done, cur.push(p.last()))
        }
    }
}

/// The non-empty '/'-separated components of path `p`, in order.
pub open spec fn components(p: Seq<char>) -> Seq<Seq<char>> {
    let (done, cur) = scan(p);
    if cur.len() > 0 {
        done.push(cur)
    } else {
        done
    }
}

/// The node reached from `start` by following the names `comps` one by one.
pub open spec fn walk(m: Map<Ino, NodeView>, start: Ino, comps: Seq<Seq<char>>) -> Option<Ino>
    decreases comps.len(),
{
    if comps.len() == 0 {
        Some(start)
    } else {
        match walk(m, start, comps.drop_last()) {
            Some(d) => child_of(m, d, comps.last()),
            None => None,
        }
    }
}

/// The node that path `p` names, read from the root.
pub open spec fn resolve(m: Map<Ino, NodeView>, p: Seq<char>) -> Option<Ino> {
    walk(m, ROOT_INO, components(p))
}

/// The directory that should hold the last component of `p`, and that component.
pub open spec fn parent_of(m: Map<Ino, NodeView>, p: Seq<char>) -> Result<(Ino, Seq<char>), FsError> {
    let comps = components(p);
    if comps.len() == 0 {
        Err(FsError::InvalidArgument)
    } else {
        match walk(m, ROOT_INO, comps.drop_last()) {
            None => Err(FsError::NotFound),
            Some(d) => if m.contains_key(d) && m[d].is_dir() {
                Ok((d, comps.last()))
            } else {
                Err(FsError::NotDirectory)
            },
        }
    }
}

/// The components of `path`.
pub fn split_path(path: &str) -> (r: Vec<String>)
    ensures
        r@.map_values(|s: String| s@) == components(path@),
{
    let n = path.unicode_len();
    let mut out: Vec<String> = Vec::new();
    let mut start: usize = 0;
    let mut i: usize = 0;
    while i < n
        invariant
            n == path@.len(),
            start <= i <= n,
            scan(path@.subrange(0, i as int)) == (
                out@.map_values(|s: String| s@),
                path@.subrange(start as int, i as int),
            ),
        decreases n - i,
    {
        let c = path.get_char(i);
        let ghost pre = path@.subrange(0, i as int);
        let ghost done = out@.map_values(|s: String| s@);
        assert(path@.subrange(0, i + 1).drop_last() =~= pre);
        if c == '/' {
            if start < i {
                let part = path.substring_char(start, i).to_owned();
                out.push(part);
                assert(out@.map_values(|s: String| s@) =~= done.push(
                    path@.subrange(start as int, i as int),
                ));
            }
            start = i + 1;
            assert(path@.subrange(start as int, i + 1) =~= Seq::<char>::empty());
        } else {
            assert(path@.subrange(start as int, i + 1) =~= path@.subrange(
                start as int,
                i as int,
            ).push(c));
        }
        i = i + 1;
    }
    assert(path@.subrange(0, n as int) =~= path@);
    if start < n {
        let ghost done = out@.map_values(|s: String| s@);
        let part = path.substring_char(start, n).to_owned();
        out.push(part);
        assert(out@.map_values(|s: String| s@) =~= done.push(path@.subrange(start as int, n as int)));
    }
    out
}

/// Follows the names `comps` from `start`.
fn walk_from(t: &InodeTable, start: Ino, comps: &Vec<String>, upto: usize) -> (r: Option<Ino>)
    requires
        t.wf(),
        upto <= comps@.len(),
    ensures
        r == walk(t@, start, comps@.map_values(|s: String| s@).subrange(0, upto as int)),
{
    let ghost cs = comps@.map_values(|s: String| s@);
    let mut cur = start;
    let mut i: usize = 0;
    assert(cs.subrange(0, 0) =~= Seq::<Seq<char>>::empty());
    while i < upto
        invariant
            t.wf(),
            upto <= comps@.len(),
            cs == comps@.map_values(|s: String| s@),
            0 <= i <= upto,
            walk(t@, start, cs.subrange(0, i as int)) == Some(cur),
        decreases upto - i,
    {
        assert(cs.subrange(0, i + 1).drop_last() =~= cs.subrange(0, i as int));
        match t.lookup(cur, comps[i].as_str()) {
            Some(c) => {
                cur = c;
            },
            None => {
                proof {
                    lemma_walk_stuck(t@, start, cs, i as int, upto as int);
                }
                return None;
            },
        }
        i = i + 1;
    }
    Some(cur)
}

/// Once a walk fails, walking further fails too.
proof fn lemma_walk_stuck(m: Map<Ino, NodeView>, start: Ino, cs: Seq<Seq<char>>, i: int, j: int)
    requires
        0 <= i < j <= cs.len(),
        walk(m, start, cs.subrange(0, i + 1)) is None,
    ensures
        walk(m, start, cs.subrange(0, j)) is None,
    decreases j - i,
{
    if j > i + 1 {
        lemma_walk_stuck(m, start, cs, i, j - 1);
        assert(cs.subrange(0, j).drop_last() =~= cs.subrange(0, j - 1));
    }
}

/// Under a well-formed table, a walk from a live node ends at a live node.
proof fn lemma_walk_live(t: InodeTable, start: Ino, cs: Seq<Seq<char>>)
    requires
        t.wf(),
        t@.contains_key(start),
        walk(t@, start, cs) is Some,
    ensures
        t@.contains_key(walk(t@, start, cs)->0),
    decreases cs.len(),
{
    if cs.len() > 0 {
        lemma_walk_live(t, start, cs.drop_last());
        let d = walk(t@, start, cs.drop_last())->0;
        lemma_child_live(t, d, cs.last());
    }
}

/// The node that `path` names.
pub fn resolve_path(t: &InodeTable, path: &str) -> (r: Result<Ino, FsError>)
    requires
        t.wf(),
    ensures
        r == match resolve(t@, path@) {
            Some(i) => Ok::<Ino, FsError>(i),
            None => Err(FsError::NotFound),
        },
        r is Ok ==> t@.contains_key(r->Ok_0),
{
    proof {
        if resolve(t@, path@) is Some {
            assert(node_ok(t@, ROOT_INO, t.next_id()));
            lemma_walk_live(*t, ROOT_INO, components(path@));
        }
    }
    let comps = split_path(path);
    let ghost cs = comps@.map_values(|s: String| s@);
    assert(cs.subrange(0, comps@.len() as int) =~= cs);
    match walk_from(t, ROOT_INO, &comps, comps.len()) {
        Some(i) => Ok(i),
        None => Err(FsError::NotFound),
    }
}

/// The directory that should hold the last component of `path`, and that component.
pub fn resolve_parent(t: &InodeTable, path: &str) -> (r: Result<(Ino, String), FsError>)
    requires
        t.wf(),
    ensures
        match r {
            Ok((d, name)) => parent_of(t@, path@) == Ok::<(Ino, Seq<char>), FsError>((d, name@)),
            Err(e) => parent_of(t@, path@) == Err::<(Ino, Seq<char>), FsError>(e),
        },
{
    let comps = split_path(path);
    let ghost cs = comps@.map_values(|s: String| s@);
    let n = comps.len();
    if n == 0 {
        return Err(FsError::InvalidArgument);
    }
    assert(cs.subrange(0, n - 1) =~= cs.drop_last());
    match walk_from(t, ROOT_INO, &comps, n - 1) {
        None => Err(FsError::NotFound),
        Some(d) => {
            if t.get_dir(d).is_some() {
                let name = comps[n - 1].clone();
                Ok((d, name))
            } else {
                Err(FsError::NotDirectory)
            }
        },
    }
}

/// Why creating a node at `path` is refused, if it is.
pub open spec fn create_error(m: Map<Ino, NodeView>, next: Ino, path: Seq<char>) -> Option<FsError> {
    match parent_of(m, path) {
        Err(e) => Some(e),
        Ok((d, name)) => insert_error(m, next, d, name),
    }
}

/// What creating `node` (named by the end of `path`) at `path` owes.
pub open spec fn created_at(
    before: InodeTable,
    after: InodeTable,
    path: Seq<char>,
    node: NodeView,
    now: Timestamp,
    r: Result<Ino, FsError>,
) -> bool {
    &&& after.wf()
    &&& after.spec_uid() == before.spec_uid()
    &&& after.spec_gid() == before.spec_gid()
    &&& match create_error(before@, before.next_id(), path) {
        Some(e) => r == Err::<Ino, FsError>(e) && after@ == before@ && after.next_id()
            == before.next_id(),
        None => {
            let d = parent_of(before@, path)->Ok_0.0;
            &&& r == Ok::<Ino, FsError>(before.next_id())
            &&& after.next_id() == before.next_id() + 1
            &&& after@ == inserted(before@, d, node, before.next_id(), now)
        },
    }
}

/// Creates a file at `path` holding `content` (empty when none is given).
pub fn create_file(
    t: &mut InodeTable,
    path: &str,
    content: Option<&[u8]>,
    mode: u16,
    now: Timestamp,
) -> (r: Result<Ino, FsError>)
    requires
        old(t).wf(),
    ensures
        created_at(
            *old(t),
            *final(t),
            path@,
            NodeView {
                body: crate::node::NodeBody::File {
                    content: match content {
                        Some(c) => c@,
                        None => Seq::empty(),
                    },
                    mode,
                },
                ..new_file_view(components(path@).last(), mode, now)
            },
            now,
            r,
        ),
{
    let (d, name) = match resolve_parent(t, path) {
        Ok(p) => p,
        Err(e) => {
            return Err(e);
        },
    };
    let file = PyFile::new(name, content, mode, now);
    t.insert_file(d, file, now)
}

/// Creates an empty directory at `path`.
pub fn create_dir(t: &mut InodeTable, path: &str, mode: u16, now: Timestamp) -> (r: Result<
    Ino,
    FsError,
>)
    requires
        old(t).wf(),
    ensures
        created_at(*old(t), *final(t), path@, new_dir_view(components(path@).last(), mode, now), now, r),
{
    let (d, name) = match resolve_parent(t, path) {
        Ok(p) => p,
        Err(e) => {
            return Err(e);
        },
    };
    let dir = PyDirectory::new(name, mode, now);
    proof {
        assert(dir.children@.len() == 0) by {
            assert(dir@.children().len() == 0);
        }
    }
    t.insert_dir(d, dir, now)
}

/// Creates a symlink at `path` whose target is `target`, stored as given.
pub fn symlink(t: &mut InodeTable, target: &str, path: &str, now: Timestamp) -> (r: Result<
    Ino,
    FsError,
>)
    requires
        old(t).wf(),
    ensures
        created_at(
            *old(t),
            *final(t),
            path@,
            new_symlink_view(components(path@).last(), target@, now),
            now,
            r,
        ),
{
    let (d, name) = match resolve_parent(t, path) {
        Ok(p) => p,
        Err(e) => {
            return Err(e);
        },
    };
    let link = PySymlink::new(name, target.to_owned(), now);
    t.insert_symlink(d, link, now)
}

/// What `makedirs` does from directory `cur` with the names `comps` still to go:
/// the table and counter it leaves and what it returns. An existing directory is
/// entered, a missing one is created, anything else stops it with `NotDirectory`;
/// directories made before a refusal stay.
pub open spec fn mkdirs(
    m: Map<Ino, NodeView>,
    next: Ino,
    cur: Ino,
    comps: Seq<Seq<char>>,
    mode: u16,
    now: Timestamp,
) -> (Map<Ino, NodeView>, Ino, Result<Ino, FsError>)
    decreases comps.len(),
{
    if comps.len() == 0 {
        (m, next, Ok(cur))
    } else {
        match child_of(m, cur, comps[0]) {
            Some(c) => if m[c].is_dir() {
                mkdirs(m, next, c, comps.drop_first(), mode, now)
            } else {
                (m, next, Err(FsError::NotDirectory))
            },
            None => match insert_error(m, next, cur, comps[0]) {
                Some(e) => (m, next, Err(e)),
                None => mkdirs(
                    inserted(m, cur, new_dir_view(comps[0], mode, now), next, now),
                    (next + 1) as Ino,
                    next,
                    comps.drop_first(),
                    mode,
                    now,
                ),
            },
        }
    }
}

/// Creates every missing directory along `path`, like `mkdir -p`, and returns the
/// last one (the root for an empty path).
pub fn makedirs(t: &mut InodeTable, path: &str, mode: u16, now: Timestamp) -> (r: Result<
    Ino,
    FsError,
>)
    requires
        old(t).wf(),
    ensures
        final(t).wf(),
        final(t).spec_uid() == old(t).spec_uid(),
        final(t).spec_gid() == old(t).spec_gid(),
        mkdirs(old(t)@, old(t).next_id(), ROOT_INO, components(path@), mode, now) == (
            final(t)@,
            final(t).next_id(),
            r,
        ),
{
    let comps = split_path(path);
    let ghost cs = comps@.map_values(|s: String| s@);
    let ghost goal = mkdirs(t@, t.next_id(), ROOT_INO, cs, mode, now);
    let mut cur = ROOT_INO;
    let mut i: usize = 0;
    assert(cs.subrange(0, cs.len() as int) =~= cs);
    while i < comps.len()
        invariant
            t.wf(),
            t.spec_uid() == old(t).spec_uid(),
            t.spec_gid() == old(t).spec_gid(),
            cs == comps@.map_values(|s: String| s@),
            0 <= i <= comps@.len(),
            goal == mkdirs(old(t)@, old(t).next_id(), ROOT_INO, components(path@), mode, now),
            goal == mkdirs(t@, t.next_id(), cur, cs.subrange(i as int, cs.len() as int), mode, now),
        decreases comps@.len() - i,
    {
        let ghost rest = cs.subrange(i as int, cs.len() as int);
        assert(rest[0] == cs[i as int]);
        assert(cs[i as int] == comps@[i as int]@);
        assert(rest.drop_first() =~= cs.subrange(i + 1, cs.len() as int));
        match t.lookup(cur, comps[i].as_str()) {
            Some(c) => {
                proof {
                    lemma_child_live(*t, cur, cs[i as int]);
                }
                if t.get_dir(c).is_some() {
                    cur = c;
                } else {
                    return Err(FsError::NotDirectory);
                }
            },
            None => {
                let dir = PyDirectory::new(comps[i].clone(), mode, now);
                proof {
                    assert(dir.children@.len() == 0) by {
                        assert(dir@.children().len() == 0);
                    }
                    assert(dir@ == new_dir_view(cs[i as int], mode, now));
                }
                match t.insert_dir(cur, dir, now) {
                    Ok(ino) => {
                        cur = ino;
                    },
                    Err(e) => {
                        return Err(e);
                    },
                }
            },
        }
        i = i + 1;
    }
    assert(cs.subrange(i as int, cs.len() as int) =~= Seq::<Seq<char>>::empty());
    Ok(cur)
}

/// The node at `path`.
pub fn get<'a>(t: &'a InodeTable, path: &str) -> (r: Result<&'a NodeRef, FsError>)
    requires
        t.wf(),
    ensures
        match resolve(t@, path@) {
            Some(i) => r is Ok && t@.contains_key(i) && r->Ok_0@ == t@[i],
            None => r == Err::<&NodeRef, FsError>(FsError::NotFound),
        },
{
    let ino = match resolve_path(t, path) {
        Ok(i) => i,
        Err(e) => {
            return Err(e);
        },
    };
    match t.get(ino) {
        Some(n) => Ok(n),
        None => Err(FsError::NotFound),
    }
}

/// Whether `path` names a node.
pub fn path_exists(t: &InodeTable, path: &str) -> (r: bool)
    requires
        t.wf(),
    ensures
        r == resolve(t@, path@) is Some,
{
    resolve_path(t, path).is_ok()
}

/// The target of the symlink at `path`; `InvalidArgument` when it is not a symlink.
pub fn readlink(t: &InodeTable, path: &str) -> (r: Result<String, FsError>)
    requires
        t.wf(),
    ensures
        match resolve(t@, path@) {
            None => r == Err::<String, FsError>(FsError::NotFound),
            Some(i) => if t@.contains_key(i) && t@[i].is_symlink() {
                r is Ok && r->Ok_0@ == t@[i].target()
            } else {
                r == Err::<String, FsError>(FsError::InvalidArgument)
            },
        },
{
    let ino = match resolve_path(t, path) {
        Ok(i) => i,
        Err(e) => {
            return Err(e);
        },
    };
    match t.get_symlink(ino) {
        Some(s) => Ok(s.target.clone()),
        None => Err(FsError::InvalidArgument),
    }
}

/// Whether `path` names a symlink.
pub fn is_symlink(t: &InodeTable, path: &str) -> (r: bool)
    requires
        t.wf(),
    ensures
        r == match resolve(t@, path@) {
            Some(i) => t@.contains_key(i) && t@[i].is_symlink(),
            None => false,
        },
{
    match resolve_path(t, path) {
        Ok(ino) => t.get_symlink(ino).is_some(),
        Err(_) => false,
    }
}

/// Why removing the node at `path` is refused, if it is: `dir` tells whether a
/// directory is wanted (`remove_dir`) or anything else (`remove_file`).
pub open spec fn remove_error(m: Map<Ino, NodeView>, path: Seq<char>, dir: bool) -> Option<FsError> {
    match resolve(m, path) {
        None => Some(FsError::NotFound),
        Some(i) => if dir {
            if !m[i].is_dir() {
                Some(FsError::NotDirectory)
            } else if i == ROOT_INO {
                Some(FsError::InvalidArgument)
            } else if m[i].children().len() > 0 {
                Some(FsError::NotEmpty)
            } else {
                None
            }
        } else if m[i].is_dir() {
            Some(FsError::IsDirectory)
        } else {
            None
        },
    }
}

/// Removes the node at `path`, which must be a directory when `dir` holds and must
/// not be one otherwise.
fn remove_at(t: &mut InodeTable, path: &str, dir: bool, now: Timestamp) -> (r: Result<(), FsError>)
    requires
        old(t).wf(),
    ensures
        final(t).wf(),
        final(t).next_id() == old(t).next_id(),
        final(t).spec_uid() == old(t).spec_uid(),
        final(t).spec_gid() == old(t).spec_gid(),
        match remove_error(old(t)@, path@, dir) {
            Some(e) => r == Err::<(), FsError>(e) && final(t)@ == old(t)@,
            None => r == Ok::<(), FsError>(()) && final(t)@ == removed(
                old(t)@,
                resolve(old(t)@, path@)->0,
                now,
            ),
        },
{
    let ino = match resolve_path(t, path) {
        Ok(i) => i,
        Err(e) => {
            return Err(e);
        },
    };
    match t.get(ino) {
        None => {
            return Err(FsError::NotFound);
        },
        Some(NodeRef::Dir(d)) => {
            if !dir {
                return Err(FsError::IsDirectory);
            }
            if ino == ROOT_INO {
                return Err(FsError::InvalidArgument);
            }
            if d.children.len() != 0 {
                return Err(FsError::NotEmpty);
            }
        },
        Some(_) => {
            if dir {
                return Err(FsError::NotDirectory);
            }
        },
    }
    proof {
        assert(node_ok(t@, ino, t.next_id()));
    }
    match t.remove(ino, now) {
        Some(_) => Ok(()),
        None => Err(FsError::NotFound),
    }
}

/// Removes the file or symlink at `path`.
pub fn remove_file(t: &mut InodeTable, path: &str, now: Timestamp) -> (r: Result<(), FsError>)
    requires
        old(t).wf(),
    ensures
        final(t).wf(),
        final(t).next_id() == old(t).next_id(),
        final(t).spec_uid() == old(t).spec_uid(),
        final(t).spec_gid() == old(t).spec_gid(),
        match remove_error(old(t)@, path@, false) {
            Some(e) => r == Err::<(), FsError>(e) && final(t)@ == old(t)@,
            None => r == Ok::<(), FsError>(()) && final(t)@ == removed(
                old(t)@,
                resolve(old(t)@, path@)->0,
                now,
            ),
        },
{
    remove_at(t, path, false, now)
}

/// Removes the empty directory at `path`; the root cannot be removed.
pub fn remove_dir(t: &mut InodeTable, path: &str, now: Timestamp) -> (r: Result<(), FsError>)
    requires
        old(t).wf(),
    ensures
        final(t).wf(),
        final(t).next_id() == old(t).next_id(),
        final(t).spec_uid() == old(t).spec_uid(),
        final(t).spec_gid() == old(t).spec_gid(),
        match remove_error(old(t)@, path@, true) {
            Some(e) => r == Err::<(), FsError>(e) && final(t)@ == old(t)@,
            None => r == Ok::<(), FsError>(()) && final(t)@ == removed(
                old(t)@,
                resolve(old(t)@, path@)->0,
                now,
            ),
        },
{
    remove_at(t, path, true, now)
}

/// The entry names of the directory at `path`, in listing order.
pub fn listdir(t: &InodeTable, path: &str) -> (r: Result<Vec<String>, FsError>)
    requires
        t.wf(),
    ensures
        match resolve(t@, path@) {
            None => r == Err::<Vec<String>, FsError>(FsError::NotFound),
            Some(i) => if t@.contains_key(i) && t@[i].is_dir() {
                r is Ok && r->Ok_0@.map_values(|s: String| s@) == t@[i].children().map_values(
                    |e: (Seq<char>, Ino)| e.0,
                )
            } else {
                r == Err::<Vec<String>, FsError>(FsError::NotDirectory)
            },
        },
{
    let ino = match resolve_path(t, path) {
        Ok(i) => i,
        Err(e) => {
            return Err(e);
        },
    };
    let d = match t.get_dir(ino) {
        Some(d) => d,
        None => {
            return Err(FsError::NotDirectory);
        },
    };
    let ghost want = t@[ino].children().map_values(|e: (Seq<char>, Ino)| e.0);
    let mut out: Vec<String> = Vec::new();
    let mut i: usize = 0;
    while i < d.children.len()
        invariant
            t@.contains_key(ino),
            d@ == t@[ino],
            want == d@.children().map_values(|e: (Seq<char>, Ino)| e.0),
            0 <= i <= d.children@.len(),
            out@.map_values(|s: String| s@) == want.subrange(0, i as int),
        decreases d.children@.len() - i,
    {
        let ghost before = out@.map_values(|s: String| s@);
        let name = d.children[i].0.clone();
        assert(name@ == want[i as int]);
        out.push(name);
        assert(out@.map_values(|s: String| s@) =~= before.push(name@));
        assert(want.subrange(0, i + 1) =~= want.subrange(0, i as int).push(want[i as int]));
        i = i + 1;
    }
    assert(want.subrange(0, i as int) =~= want);
    Ok(out)
}

/// Why renaming `old_path` to `new_path` is refused, if it is.
pub open spec fn rename_path_error(m: Map<Ino, NodeView>, old_path: Seq<char>, new_path: Seq<char>) -> Option<
    FsError,
> {
    match parent_of(m, old_path) {
        Err(e) => Some(e),
        Ok((op, on)) => match parent_of(m, new_path) {
            Err(e) => Some(e),
            Ok((np, nn)) => rename_refusal(m, op, on, np, nn),
        },
    }
}

/// Moves the node at `old_path` to `new_path`, replacing a node there as `rename`
/// of the protocol does.
pub fn rename(t: &mut InodeTable, old_path: &str, new_path: &str, now: Timestamp) -> (r: Result<
    (),
    FsError,
>)
    requires
        old(t).wf(),
    ensures
        final(t).wf(),
        final(t).next_id() == old(t).next_id(),
        final(t).spec_uid() == old(t).spec_uid(),
        final(t).spec_gid() == old(t).spec_gid(),
        match rename_path_error(old(t)@, old_path@, new_path@) {
            Some(e) => r == Err::<(), FsError>(e) && final(t)@ == old(t)@,
            None => {
                let (op, on) = parent_of(old(t)@, old_path@)->Ok_0;
                let (np, nn) = parent_of(old(t)@, new_path@)->Ok_0;
                r == Ok::<(), FsError>(()) && final(t)@ == rename_outcome(
                    old(t)@,
                    op,
                    on,
                    np,
                    nn,
                    now,
                )
            },
        },
{
    let (op, on) = match resolve_parent(t, old_path) {
        Ok(p) => p,
        Err(e) => {
            return Err(e);
        },
    };
    let (np, nn) = match resolve_parent(t, new_path) {
        Ok(p) => p,
        Err(e) => {
            return Err(e);
        },
    };
    crate::fs::rename(t, op, on.as_str(), np, nn.as_str(), now)
}

} // verus!
