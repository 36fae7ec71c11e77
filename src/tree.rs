use std::collections::HashMap;
use vstd::prelude::*;
use crate::error::FsError;
use crate::node::{
    FileAttr, FileKind, Ino, NodeBody, NodeRef, NodeView, PyDirectory, PyFile, PySymlink,
    Timestamp, ROOT_INO, child_ino, entries_view, has_name, lemma_child_ino_at,
    lemma_child_ino_push, lemma_child_ino_remove, name_index, names_unique, resized, with_mode,
    written,
};

verus! {

broadcast use vstd::std_specs::hash::group_hash_axioms;

/// The entry `e` of directory `d` refers to a live node other than the root,
/// which names `d` as its directory and bears the entry's name.
pub open spec fn entry_resolves(m: Map<Ino, NodeView>, d: Ino, e: (Seq<char>, Ino)) -> bool {
    &&& m.contains_key(e.1)
    &&& e.1 != ROOT_INO
    &&& m[e.1].parent == d
    &&& m[e.1].name == e.0
}

/// Every entry of directory `d` resolves (no dangling children).
pub open spec fn entries_resolve(m: Map<Ino, NodeView>, d: Ino) -> bool {
    forall|i: int|
        0 <= i < m[d].children().len() ==> #[trigger] entry_resolves(m, d, m[d].children()[i])
}

/// The directory that `k` names as its parent lists `k` under `k`'s name.
pub open spec fn listed_by_parent(m: Map<Ino, NodeView>, k: Ino) -> bool {
    let p = m[k].parent;
    &&& m.contains_key(p)
    &&& m[p].is_dir()
    &&& child_ino(m[p].children(), m[k].name) == Some(k)
}

/// What holds of each live node `k` of a well-formed table whose counter stands at `next`.
pub open spec fn node_ok(m: Map<Ino, NodeView>, k: Ino, next: Ino) -> bool {
    &&& ROOT_INO <= k < next
    &&& m[k].ino == k
    &&& k != ROOT_INO ==> listed_by_parent(m, k)
    &&& m[k].is_dir() ==> names_unique(m[k].children()) && entries_resolve(m, k)
}

/// The root is a directory that is its own parent, and every live node is consistent
/// with its directory and its entries.
pub open spec fn table_wf(m: Map<Ino, NodeView>, next: Ino) -> bool {
    &&& m.contains_key(ROOT_INO)
    &&& m[ROOT_INO].is_dir()
    &&& m[ROOT_INO].parent == ROOT_INO
    &&& forall|k: Ino| #[trigger] m.contains_key(k) ==> node_ok(m, k, next)
}

/// Like `node_ok`, except that `c` need not be listed by its directory and no entry refers to `c`.
pub open spec fn node_ok_but(m: Map<Ino, NodeView>, k: Ino, next: Ino, c: Ino) -> bool {
    &&& ROOT_INO <= k < next
    &&& m[k].ino == k
    &&& k != ROOT_INO && k != c ==> listed_by_parent(m, k)
    &&& m[k].is_dir() ==> names_unique(m[k].children()) && entries_resolve(m, k) && !has_child(
        m[k].children(),
        c,
    )
}

/// Some entry of `cs` refers to `c`.
pub open spec fn has_child(cs: Seq<(Seq<char>, Ino)>, c: Ino) -> bool {
    exists|i: int| 0 <= i < cs.len() && #[trigger] cs[i].1 == c
}

/// A table that is well formed but for one live node `c`, which no directory lists.
pub open spec fn wf_unlisted(m: Map<Ino, NodeView>, next: Ino, c: Ino) -> bool {
    &&& m.contains_key(ROOT_INO)
    &&& m[ROOT_INO].is_dir()
    &&& m[ROOT_INO].parent == ROOT_INO
    &&& m.contains_key(c)
    &&& c != ROOT_INO
    &&& forall|k: Ino| #[trigger] m.contains_key(k) ==> node_ok_but(m, k, next, c)
}

/// The identifier listed under `name` in directory `parent`, if `parent` is a live directory.
pub open spec fn child_of(m: Map<Ino, NodeView>, parent: Ino, name: Seq<char>) -> Option<Ino> {
    if m.contains_key(parent) && m[parent].is_dir() {
        child_ino(m[parent].children(), name)
    } else {
        None
    }
}

/// Number of 512-byte blocks that `size` bytes take.
pub open spec fn blocks_for(size: int) -> int {
    (size + 511) / 512
}

/// The attributes that are synthesized for node `n`.
pub open spec fn attr_of(n: NodeView, uid: u32, gid: u32) -> FileAttr {
    let size: u64 = match n.body {
        NodeBody::File { content, .. } => content.len() as u64,
        NodeBody::Dir { .. } => 0,
        NodeBody::Symlink { target } => (vstd::utf8::encode_utf8(target).len() as usize) as u64,
    };
    FileAttr {
        ino: n.ino,
        size,
        blocks: if n.is_file() {
            blocks_for(size as int) as u64
        } else {
            0
        },
        atime: n.atime,
        mtime: n.mtime,
        ctime: n.ctime,
        crtime: n.ctime,
        kind: n.kind(),
        perm: if n.is_symlink() {
            0o777
        } else {
            n.mode()
        },
        nlink: if n.is_dir() {
            if n.children().len() + 2 <= u32::MAX {
                (n.children().len() + 2) as u32
            } else {
                u32::MAX
            }
        } else {
            1
        },
        uid,
        gid,
    }
}

/// Directory `d` with entry `idx` taken out, its times set to `now`.
pub open spec fn without_entry(m: Map<Ino, NodeView>, d: Ino, idx: int, now: Timestamp) -> Map<
    Ino,
    NodeView,
> {
    m.insert(d, m[d].with_children(m[d].children().remove(idx)).touched(now))
}

/// Directory `d` with the entry `(name, c)` added at the end, its times set to `now`.
pub open spec fn with_entry(
    m: Map<Ino, NodeView>,
    d: Ino,
    name: Seq<char>,
    c: Ino,
    now: Timestamp,
) -> Map<Ino, NodeView> {
    m.insert(d, m[d].with_children(m[d].children().push((name, c))).touched(now))
}

/// Why inserting a node named `name` under `parent` is refused, if it is.
pub open spec fn insert_error(m: Map<Ino, NodeView>, next: Ino, parent: Ino, name: Seq<char>) -> Option<
    FsError,
> {
    if !m.contains_key(parent) {
        Some(FsError::NotFound)
    } else if !m[parent].is_dir() {
        Some(FsError::NotDirectory)
    } else if has_name(m[parent].children(), name) {
        Some(FsError::AlreadyExists)
    } else if next == u64::MAX {
        Some(FsError::NoSpace)
    } else {
        None
    }
}

/// The table after `node` is inserted under `parent` with identifier `ino`.
pub open spec fn inserted(
    m: Map<Ino, NodeView>,
    parent: Ino,
    node: NodeView,
    ino: Ino,
    now: Timestamp,
) -> Map<Ino, NodeView> {
    with_entry(m.insert(ino, NodeView { ino, parent, ..node }), parent, node.name, ino, now)
}

/// The table after node `ino` is removed and detached from its directory.
pub open spec fn removed(m: Map<Ino, NodeView>, ino: Ino, now: Timestamp) -> Map<Ino, NodeView> {
    let p = m[ino].parent;
    without_entry(m, p, name_index(m[p].children(), m[ino].name), now).remove(ino)
}

/// Why moving entry `on` of `op` to name `nn` in `np` is refused, if it is.
pub open spec fn rename_error(
    m: Map<Ino, NodeView>,
    op: Ino,
    on: Seq<char>,
    np: Ino,
    nn: Seq<char>,
) -> Option<FsError> {
    if child_of(m, op, on) is None {
        Some(FsError::NotFound)
    } else if !m.contains_key(np) {
        Some(FsError::NotFound)
    } else if !m[np].is_dir() {
        Some(FsError::NotDirectory)
    } else if has_name(m[np].children(), nn) && !(np == op && nn == on) {
        Some(FsError::AlreadyExists)
    } else {
        None
    }
}

/// The table after entry `on` of `op` is moved to name `nn` in `np`.
pub open spec fn renamed(
    m: Map<Ino, NodeView>,
    op: Ino,
    on: Seq<char>,
    np: Ino,
    nn: Seq<char>,
    now: Timestamp,
) -> Map<Ino, NodeView> {
    let c = child_of(m, op, on)->0;
    let m1 = without_entry(m, op, name_index(m[op].children(), on), now);
    let m2 = m1.insert(c, NodeView { name: nn, parent: np, ctime: now, ..m1[c] });
    with_entry(m2, np, nn, c, now)
}

proof fn lemma_wf_child(m: Map<Ino, NodeView>, next: Ino, d: Ino, i: int)
    requires
        table_wf(m, next),
        m.contains_key(d),
        m[d].is_dir(),
        0 <= i < m[d].children().len(),
    ensures
        entry_resolves(m, d, m[d].children()[i]),
        child_ino(m[d].children(), m[d].children()[i].0) == Some(m[d].children()[i].1),
        name_index(m[d].children(), m[d].children()[i].0) == i,
{
    assert(node_ok(m, d, next));
    lemma_child_ino_at(m[d].children(), i);
}

/// Changes that keep every node's name, parent, kind and entries keep the table well formed.
proof fn lemma_same_shape(m: Map<Ino, NodeView>, m2: Map<Ino, NodeView>, next: Ino)
    requires
        table_wf(m, next),
        m2.dom() == m.dom(),
        forall|k: Ino|
            #[trigger] m.contains_key(k) ==> m2[k].name == m[k].name && m2[k].ino == m[k].ino
                && m2[k].parent == m[k].parent && m2[k].is_dir() == m[k].is_dir()
                && m2[k].children() == m[k].children(),
    ensures
        table_wf(m2, next),
{
    assert forall|k: Ino| #[trigger] m2.contains_key(k) implies node_ok(m2, k, next) by {
        assert(m.contains_key(k));
        assert(node_ok(m, k, next));
        if k != ROOT_INO {
            assert(m.contains_key(m[k].parent));
        }
        if m2[k].is_dir() {
            assert forall|i: int| 0 <= i < m2[k].children().len() implies #[trigger] entry_resolves(
                m2,
                k,
                m2[k].children()[i],
            ) by {
                assert(entry_resolves(m, k, m[k].children()[i]));
                assert(m.contains_key(m[k].children()[i].1));
            }
        }
    }
}

/// Taking the entry of non-root node `c` out of its directory.
proof fn lemma_detach(m: Map<Ino, NodeView>, next: Ino, c: Ino, now: Timestamp)
    requires
        table_wf(m, next),
        m.contains_key(c),
        c != ROOT_INO,
    ensures
        ({
            let p = m[c].parent;
            let idx = name_index(m[p].children(), m[c].name);
            &&& 0 <= idx < m[p].children().len()
            &&& m[p].children()[idx] == (m[c].name, c)
            &&& wf_unlisted(without_entry(m, p, idx, now), next, c)
        }),
{
    let p = m[c].parent;
    assert(node_ok(m, c, next));
    assert(node_ok(m, p, next));
    let cs = m[p].children();
    let idx = name_index(cs, m[c].name);
    assert(has_name(cs, m[c].name));
    let j = choose|j: int| 0 <= j < cs.len() && #[trigger] cs[j].0 == m[c].name;
    lemma_child_ino_at(cs, j);
    let m1 = without_entry(m, p, idx, now);
    let ds = cs.remove(idx);
    assert(m1[p].children() == ds);
    assert forall|k: Ino| #[trigger] m1.contains_key(k) implies node_ok_but(m1, k, next, c) by {
        assert(m.contains_key(k));
        assert(node_ok(m, k, next));
        if k != ROOT_INO && k != c {
            let q = m[k].parent;
            assert(m.contains_key(q));
            if q == p {
                lemma_child_ino_remove(cs, idx, m[k].name);
            }
        }
        if m1[k].is_dir() {
            if k == p {
                lemma_child_ino_remove(cs, idx, m[c].name);
                assert forall|i: int| 0 <= i < ds.len() implies #[trigger] entry_resolves(
                    m1,
                    k,
                    m1[k].children()[i],
                ) by {
                    let ii = if i < idx {
                        i
                    } else {
                        i + 1
                    };
                    assert(ds[i] == cs[ii]);
                    assert(entry_resolves(m, p, cs[ii]));
                }
                assert forall|i: int| 0 <= i < ds.len() implies #[trigger] ds[i].1 != c by {
                    let ii = if i < idx {
                        i
                    } else {
                        i + 1
                    };
                    assert(ds[i] == cs[ii]);
                    assert(entry_resolves(m, p, cs[ii]));
                    lemma_child_ino_at(cs, ii);
                }
            } else {
                let es = m[k].children();
                assert forall|i: int| 0 <= i < es.len() implies #[trigger] entry_resolves(
                    m1,
                    k,
                    m1[k].children()[i],
                ) by {
                    assert(entry_resolves(m, k, es[i]));
                }
                assert forall|i: int| 0 <= i < es.len() implies #[trigger] es[i].1 != c by {
                    assert(entry_resolves(m, k, es[i]));
                }
            }
        }
    }
}

/// A node that no directory lists may take any name and parent.
proof fn lemma_relink(
    m: Map<Ino, NodeView>,
    next: Ino,
    c: Ino,
    name: Seq<char>,
    parent: Ino,
    now: Timestamp,
)
    requires
        wf_unlisted(m, next, c),
    ensures
        wf_unlisted(m.insert(c, NodeView { name, parent, ctime: now, ..m[c] }), next, c),
{
    let m2 = m.insert(c, NodeView { name, parent, ctime: now, ..m[c] });
    assert forall|k: Ino| #[trigger] m2.contains_key(k) implies node_ok_but(m2, k, next, c) by {
        assert(node_ok_but(m, k, next, c));
        if k != ROOT_INO && k != c {
            assert(m.contains_key(m[k].parent));
        }
        if m2[k].is_dir() {
            let es = m[k].children();
            assert forall|i: int| 0 <= i < es.len() implies #[trigger] entry_resolves(
                m2,
                k,
                m2[k].children()[i],
            ) by {
                assert(entry_resolves(m, k, es[i]));
                assert(es[i].1 != c);
            }
        }
    }
}

/// Listing the unlisted node `c` in its directory restores well-formedness.
proof fn lemma_attach(m: Map<Ino, NodeView>, next: Ino, c: Ino, now: Timestamp)
    requires
        wf_unlisted(m, next, c),
        m.contains_key(m[c].parent),
        m[m[c].parent].is_dir(),
        !has_name(m[m[c].parent].children(), m[c].name),
    ensures
        table_wf(with_entry(m, m[c].parent, m[c].name, c, now), next),
{
    let p = m[c].parent;
    let cs = m[p].children();
    let m2 = with_entry(m, p, m[c].name, c, now);
    let ds = cs.push((m[c].name, c));
    assert(m2[p].children() == ds);
    assert(node_ok_but(m, p, next, c));
    assert forall|k: Ino| #[trigger] m2.contains_key(k) implies node_ok(m2, k, next) by {
        assert(m.contains_key(k));
        assert(node_ok_but(m, k, next, c));
        if k != ROOT_INO {
            if k == c {
                lemma_child_ino_push(cs, m[c].name, c, m[c].name);
            } else {
                let q = m[k].parent;
                assert(m.contains_key(q));
                if q == p {
                    lemma_child_ino_push(cs, m[c].name, c, m[k].name);
                }
            }
        }
        if m2[k].is_dir() {
            if k == p {
                lemma_child_ino_push(cs, m[c].name, c, m[c].name);
                assert forall|i: int| 0 <= i < ds.len() implies #[trigger] entry_resolves(
                    m2,
                    k,
                    m2[k].children()[i],
                ) by {
                    if i < cs.len() {
                        assert(ds[i] == cs[i]);
                        assert(entry_resolves(m, p, cs[i]));
                    }
                }
            } else {
                let es = m[k].children();
                assert forall|i: int| 0 <= i < es.len() implies #[trigger] entry_resolves(
                    m2,
                    k,
                    m2[k].children()[i],
                ) by {
                    assert(entry_resolves(m, k, es[i]));
                }
            }
        }
    }
}

/// Adding a fresh node with no entries, under the next identifier, leaves it the only unlisted node.
proof fn lemma_fresh(m: Map<Ino, NodeView>, next: Ino, node: NodeView, parent: Ino)
    requires
        table_wf(m, next),
        next < u64::MAX,
        node.children().len() == 0,
    ensures
        wf_unlisted(m.insert(next, NodeView { ino: next, parent, ..node }), (next + 1) as Ino, next),
{
    let m2 = m.insert(next, NodeView { ino: next, parent, ..node });
    assert(node_ok(m, ROOT_INO, next));
    assert forall|k: Ino| #[trigger] m2.contains_key(k) implies node_ok_but(
        m2,
        k,
        (next + 1) as Ino,
        next,
    ) by {
        if k != next {
            assert(node_ok(m, k, next));
            if k != ROOT_INO {
                assert(m.contains_key(m[k].parent));
            }
            if m2[k].is_dir() {
                let es = m[k].children();
                assert forall|i: int| 0 <= i < es.len() implies #[trigger] entry_resolves(
                    m2,
                    k,
                    m2[k].children()[i],
                ) by {
                    assert(entry_resolves(m, k, es[i]));
                    assert(m.contains_key(es[i].1));
                }
                assert forall|i: int| 0 <= i < es.len() implies #[trigger] es[i].1 != next by {
                    assert(entry_resolves(m, k, es[i]));
                    assert(m.contains_key(es[i].1));
                    assert(node_ok(m, es[i].1, next));
                }
            }
        }
    }
}

/// Dropping the unlisted node `c`, when it has no entries of its own.
proof fn lemma_drop(m: Map<Ino, NodeView>, next: Ino, c: Ino)
    requires
        wf_unlisted(m, next, c),
        m[c].children().len() == 0,
    ensures
        table_wf(m.remove(c), next),
{
    let m2 = m.remove(c);
    assert forall|k: Ino| #[trigger] m2.contains_key(k) implies node_ok(m2, k, next) by {
        assert(node_ok_but(m, k, next, c));
        if k != ROOT_INO {
            let q = m[k].parent;
            assert(m.contains_key(q));
            if q == c {
                let cs = m[c].children();
                assert(has_name(cs, m[k].name));
            }
        }
        if m2[k].is_dir() {
            let es = m[k].children();
            assert forall|i: int| 0 <= i < es.len() implies #[trigger] entry_resolves(
                m2,
                k,
                m2[k].children()[i],
            ) by {
                assert(entry_resolves(m, k, es[i]));
                if es[i].1 == c {
                    assert(has_child(es, c));
                }
            }
        }
    }
}

/// Identifiers only grow: every live identifier lies below the counter, which the
/// next insertion hands out and then raises, and which no other change lowers; so
/// each new identifier exceeds every one handed out before, removed nodes' included.
pub proof fn lemma_live_below_next(t: InodeTable)
    requires
        t.wf(),
    ensures
        forall|k: Ino| #[trigger] t@.contains_key(k) ==> ROOT_INO <= k < t.next_id(),
{
    assert forall|k: Ino| #[trigger] t@.contains_key(k) implies ROOT_INO <= k < t.next_id() by {
        assert(node_ok(t@, k, t.next_id()));
    }
}

/// A removal leaves a well-formed table.
pub(crate) proof fn lemma_removed_wf(m: Map<Ino, NodeView>, next: Ino, ino: Ino, now: Timestamp)
    requires
        table_wf(m, next),
        m.contains_key(ino),
        ino != ROOT_INO,
        m[ino].children().len() == 0,
    ensures
        table_wf(removed(m, ino, now), next),
{
    lemma_detach(m, next, ino, now);
    let p = m[ino].parent;
    lemma_drop(without_entry(m, p, name_index(m[p].children(), m[ino].name), now), next, ino);
}

/// The in-memory inode table: the single owner of every node, keyed by identifier.
pub struct InodeTable {
    inodes: HashMap<Ino, NodeRef>,
    next_ino: Ino,
    pub uid: u32,
    pub gid: u32,
}

impl View for InodeTable {
    type V = Map<Ino, NodeView>;

    closed spec fn view(&self) -> Map<Ino, NodeView> {
        Map::new(|k: Ino| self.inodes@.contains_key(k), |k: Ino| self.inodes@[k]@)
    }
}

impl InodeTable {
    /// The identifier that the next inserted node receives.
    pub closed spec fn next_id(&self) -> Ino {
        self.next_ino
    }

    /// The user that owns every node.
    pub closed spec fn spec_uid(&self) -> u32 {
        self.uid
    }

    /// The group that owns every node.
    pub closed spec fn spec_gid(&self) -> u32 {
        self.gid
    }

    /// The tree is consistent (see `table_wf`) and every live identifier lies below the counter.
    pub open spec fn wf(&self) -> bool {
        table_wf(self@, self.next_id())
    }

    /// An empty table whose nodes are all owned by `uid` and `gid`.
    pub fn new(uid: u32, gid: u32) -> (r: InodeTable)
        ensures
            r@ == Map::<Ino, NodeView>::empty(),
            r.next_id() == ROOT_INO + 1,
            r.spec_uid() == uid,
            r.spec_gid() == gid,
    {
        let r = InodeTable { inodes: HashMap::new(), next_ino: ROOT_INO + 1, uid, gid };
        assert(r@ =~= Map::<Ino, NodeView>::empty());
        r
    }

    /// Creates the root directory, with permission 0755, under identifier 1.
    pub fn init_root(&mut self, now: Timestamp)
        requires
            old(self)@ == Map::<Ino, NodeView>::empty(),
            old(self).next_id() == ROOT_INO + 1,
        ensures
            final(self).wf(),
            final(self)@ == map![ROOT_INO => NodeView {
                name: Seq::empty(),
                ino: ROOT_INO,
                parent: ROOT_INO,
                atime: now,
                mtime: now,
                ctime: now,
                body: NodeBody::Dir { mode: 0o755, children: Seq::empty() },
            }],
            final(self).next_id() == old(self).next_id(),
            final(self).spec_uid() == old(self).spec_uid(),
            final(self).spec_gid() == old(self).spec_gid(),
    {
        let mut root = PyDirectory::new(String::new(), 0o755, now);
        root.ino = ROOT_INO;
        root.parent_ino = ROOT_INO;
        self.put(ROOT_INO, NodeRef::Dir(root));
        assert(self@ =~= map![ROOT_INO => NodeView {
            name: Seq::empty(),
            ino: ROOT_INO,
            parent: ROOT_INO,
            atime: now,
            mtime: now,
            ctime: now,
            body: NodeBody::Dir { mode: 0o755, children: Seq::empty() },
        }]);
        assert(node_ok(self@, ROOT_INO, self.next_ino));
    }

    fn take(&mut self, ino: Ino) -> (r: NodeRef)
        requires
            old(self)@.contains_key(ino),
        ensures
            r@ == old(self)@[ino],
            final(self)@ == old(self)@.remove(ino),
            final(self).next_ino == old(self).next_ino,
            final(self).spec_uid() == old(self).spec_uid(),
            final(self).spec_gid() == old(self).spec_gid(),
    {
        let r = self.inodes.remove(&ino);
        match r {
            Some(n) => {
                assert(self@ =~= old(self)@.remove(ino));
                n
            },
            None => {
                proof {
                    assert(false);
                }
                NodeRef::Symlink(PySymlink::new(String::new(), String::new(), Timestamp { secs: 0, nanos: 0 }))
            },
        }
    }

    fn put(&mut self, ino: Ino, n: NodeRef)
        ensures
            final(self)@ == old(self)@.insert(ino, n@),
            final(self).next_ino == old(self).next_ino,
            final(self).spec_uid() == old(self).spec_uid(),
            final(self).spec_gid() == old(self).spec_gid(),
    {
        self.inodes.insert(ino, n);
        assert(self@ =~= old(self)@.insert(ino, n@));
    }

    /// The node with identifier `ino`.
    pub fn get(&self, ino: Ino) -> (r: Option<&NodeRef>)
        ensures
            match r {
                Some(n) => self@.contains_key(ino) && n@ == self@[ino],
                None => !self@.contains_key(ino),
            },
    {
        self.inodes.get(&ino)
    }

    /// The regular file with identifier `ino`.
    pub fn get_file(&self, ino: Ino) -> (r: Option<&PyFile>)
        ensures
            match r {
                Some(f) => self@.contains_key(ino) && self@[ino].is_file() && f@ == self@[ino],
                None => !(self@.contains_key(ino) && self@[ino].is_file()),
            },
    {
        match self.inodes.get(&ino) {
            Some(NodeRef::File(f)) => Some(f),
            _ => None,
        }
    }

    /// The directory with identifier `ino`.
    pub fn get_dir(&self, ino: Ino) -> (r: Option<&PyDirectory>)
        ensures
            match r {
                Some(d) => self@.contains_key(ino) && self@[ino].is_dir() && d@ == self@[ino],
                None => !(self@.contains_key(ino) && self@[ino].is_dir()),
            },
    {
        match self.inodes.get(&ino) {
            Some(NodeRef::Dir(d)) => Some(d),
            _ => None,
        }
    }

    /// The symlink with identifier `ino`.
    pub fn get_symlink(&self, ino: Ino) -> (r: Option<&PySymlink>)
        ensures
            match r {
                Some(s) => self@.contains_key(ino) && self@[ino].is_symlink() && s@ == self@[ino],
                None => !(self@.contains_key(ino) && self@[ino].is_symlink()),
            },
    {
        match self.inodes.get(&ino) {
            Some(NodeRef::Symlink(s)) => Some(s),
            _ => None,
        }
    }

    /// The identifier listed under `name` in directory `parent`.
    pub fn lookup(&self, parent: Ino, name: &str) -> (r: Option<Ino>)
        requires
            self.wf(),
        ensures
            r == child_of(self@, parent, name@),
    {
        match self.get_dir(parent) {
            Some(d) => {
                let key = name.to_owned();
                match d.find(&key) {
                    Some(i) => {
                        proof {
                            assert(d@.children()[i as int] == (d.children@[i as int].0@, d.children@[i as int].1));
                            lemma_wf_child(self@, self.next_ino, parent, i as int);
                        }
                        Some(d.children[i].1)
                    },
                    None => None,
                }
            },
            None => None,
        }
    }

    /// The attributes synthesized for node `ino`: size, blocks, link count and
    /// permission follow its current state, owner and group are the table's.
    pub fn getattr(&self, ino: Ino) -> (r: Option<FileAttr>)
        requires
            self.wf(),
        ensures
            r == if self@.contains_key(ino) {
                Some(attr_of(self@[ino], self.spec_uid(), self.spec_gid()))
            } else {
                None
            },
    {
        match self.inodes.get(&ino) {
            None => None,
            Some(NodeRef::File(f)) => {
                let size = f.content.len() as u64;
                let blocks = if size % 512 == 0 {
                    size / 512
                } else {
                    size / 512 + 1
                };
                Some(
                    FileAttr {
                        ino,
                        size,
                        blocks,
                        atime: f.atime,
                        mtime: f.mtime,
                        ctime: f.ctime,
                        crtime: f.ctime,
                        kind: FileKind::File,
                        perm: f.mode,
                        nlink: 1,
                        uid: self.uid,
                        gid: self.gid,
                    },
                )
            },
            Some(NodeRef::Dir(d)) => {
                let n = d.children.len();
                let nlink: u32 = if n <= (u32::MAX - 2) as usize {
                    (n + 2) as u32
                } else {
                    u32::MAX
                };
                Some(
                    FileAttr {
                        ino,
                        size: 0,
                        blocks: 0,
                        atime: d.atime,
                        mtime: d.mtime,
                        ctime: d.ctime,
                        crtime: d.ctime,
                        kind: FileKind::Directory,
                        perm: d.mode,
                        nlink,
                        uid: self.uid,
                        gid: self.gid,
                    },
                )
            },
            Some(NodeRef::Symlink(s)) => {
                let size = s.target.as_str().len() as u64;
                Some(
                    FileAttr {
                        ino,
                        size,
                        blocks: 0,
                        atime: s.atime,
                        mtime: s.mtime,
                        ctime: s.ctime,
                        crtime: s.ctime,
                        kind: FileKind::Symlink,
                        perm: 0o777,
                        nlink: 1,
                        uid: self.uid,
                        gid: self.gid,
                    },
                )
            },
        }
    }

    /// Takes entry `idx` out of directory `d` and sets the directory's times.
    fn detach_entry(&mut self, d: Ino, idx: usize, now: Timestamp)
        requires
            old(self)@.contains_key(d),
            old(self)@[d].is_dir(),
            idx < old(self)@[d].children().len(),
        ensures
            final(self)@ == without_entry(old(self)@, d, idx as int, now),
            final(self).next_ino == old(self).next_ino,
            final(self).uid == old(self).uid,
            final(self).gid == old(self).gid,
    {
        let n = self.take(d);
        match n {
            NodeRef::Dir(mut dir) => {
                let ghost before = dir.children@;
                dir.children.remove(idx);
                assert(entries_view(dir.children@) =~= entries_view(before).remove(idx as int));
                dir.mtime = now;
                dir.ctime = now;
                self.put(d, NodeRef::Dir(dir));
                assert(self@ =~= without_entry(old(self)@, d, idx as int, now));
            },
            other => {
                proof {
                    assert(false);
                }
                self.put(d, other);
            },
        }
    }

    /// Adds the entry `(name, c)` to directory `d` and sets the directory's times.
    fn attach_entry(&mut self, d: Ino, name: String, c: Ino, now: Timestamp)
        requires
            old(self)@.contains_key(d),
            old(self)@[d].is_dir(),
        ensures
            final(self)@ == with_entry(old(self)@, d, name@, c, now),
            final(self).next_ino == old(self).next_ino,
            final(self).uid == old(self).uid,
            final(self).gid == old(self).gid,
    {
        let n = self.take(d);
        match n {
            NodeRef::Dir(mut dir) => {
                let ghost before = dir.children@;
                dir.children.push((name, c));
                assert(entries_view(dir.children@) =~= entries_view(before).push((name@, c)));
                dir.mtime = now;
                dir.ctime = now;
                self.put(d, NodeRef::Dir(dir));
                assert(self@ =~= with_entry(old(self)@, d, name@, c, now));
            },
            other => {
                proof {
                    assert(false);
                }
                self.put(d, other);
            },
        }
    }

    /// Inserts `node` under `parent`, giving it the next identifier.
    fn insert_node(&mut self, parent: Ino, node: NodeRef, now: Timestamp) -> (r: Result<Ino, FsError>)
        requires
            old(self).wf(),
            node@.children().len() == 0,
        ensures
            final(self).wf(),
            final(self).spec_uid() == old(self).spec_uid(),
            final(self).spec_gid() == old(self).spec_gid(),
            match r {
                Ok(ino) => {
                    &&& insert_error(old(self)@, old(self).next_id(), parent, node@.name) is None
                    &&& ino == old(self).next_id()
                    &&& final(self).next_id() == ino + 1
                    &&& final(self)@ == inserted(old(self)@, parent, node@, ino, now)
                },
                Err(e) => {
                    &&& insert_error(old(self)@, old(self).next_id(), parent, node@.name) == Some(e)
                    &&& final(self)@ == old(self)@
                    &&& final(self).next_id() == old(self).next_id()
                },
            },
    {
        match self.get_dir(parent) {
            Some(d) => {
                if let Some(i) = d.find(node.name()) {
                    proof {
                        assert(d@.children()[i as int] == (d.children@[i as int].0@, d.children@[i as int].1));
                        assert(d@.children()[i as int].0 == node@.name);
                        assert(has_name(self@[parent].children(), node@.name));
                    }
                    return Err(FsError::AlreadyExists);
                }
            },
            None => {
                if self.inodes.contains_key(&parent) {
                    return Err(FsError::NotDirectory);
                } else {
                    return Err(FsError::NotFound);
                }
            },
        }
        if self.next_ino == u64::MAX {
            return Err(FsError::NoSpace);
        }
        let ghost m = self@;
        let ghost nv = node@;
        let ino = self.next_ino;
        self.next_ino = self.next_ino + 1;
        let mut node = node;
        node.attach(ino, parent);
        let name = node.name().clone();
        self.put(ino, node);
        proof {
            lemma_fresh(m, ino, nv, parent);
        }
        self.attach_entry(parent, name, ino, now);
        proof {
            lemma_attach(m.insert(ino, NodeView { ino, parent, ..nv }), self.next_ino, ino, now);
        }
        Ok(ino)
    }

    /// Inserts `file` under directory `parent`, giving it the next identifier and
    /// setting the directory's times. Refused, with nothing changed, when `parent`
    /// is missing or not a directory, when it already lists the file's name, or
    /// when identifiers are exhausted.
    pub fn insert_file(&mut self, parent: Ino, file: PyFile, now: Timestamp) -> (r: Result<
        Ino,
        FsError,
    >)
        requires
            old(self).wf(),
        ensures
            final(self).wf(),
            final(self).spec_uid() == old(self).spec_uid(),
            final(self).spec_gid() == old(self).spec_gid(),
            match r {
                Ok(ino) => {
                    &&& insert_error(old(self)@, old(self).next_id(), parent, file@.name) is None
                    &&& ino == old(self).next_id()
                    &&& final(self).next_id() == ino + 1
                    &&& final(self)@ == inserted(old(self)@, parent, file@, ino, now)
                },
                Err(e) => {
                    &&& insert_error(old(self)@, old(self).next_id(), parent, file@.name) == Some(e)
                    &&& final(self)@ == old(self)@
                    &&& final(self).next_id() == old(self).next_id()
                },
            },
    {
        self.insert_node(parent, NodeRef::File(file), now)
    }

    /// Inserts the empty directory `dir` under directory `parent`, as `insert_file` does.
    pub fn insert_dir(&mut self, parent: Ino, dir: PyDirectory, now: Timestamp) -> (r: Result<
        Ino,
        FsError,
    >)
        requires
            old(self).wf(),
            dir.children@.len() == 0,
        ensures
            final(self).wf(),
            final(self).spec_uid() == old(self).spec_uid(),
            final(self).spec_gid() == old(self).spec_gid(),
            match r {
                Ok(ino) => {
                    &&& insert_error(old(self)@, old(self).next_id(), parent, dir@.name) is None
                    &&& ino == old(self).next_id()
                    &&& final(self).next_id() == ino + 1
                    &&& final(self)@ == inserted(old(self)@, parent, dir@, ino, now)
                },
                Err(e) => {
                    &&& insert_error(old(self)@, old(self).next_id(), parent, dir@.name) == Some(e)
                    &&& final(self)@ == old(self)@
                    &&& final(self).next_id() == old(self).next_id()
                },
            },
    {
        self.insert_node(parent, NodeRef::Dir(dir), now)
    }

    /// Inserts `symlink` under directory `parent`, as `insert_file` does.
    pub fn insert_symlink(&mut self, parent: Ino, symlink: PySymlink, now: Timestamp) -> (r: Result<
        Ino,
        FsError,
    >)
        requires
            old(self).wf(),
        ensures
            final(self).wf(),
            final(self).spec_uid() == old(self).spec_uid(),
            final(self).spec_gid() == old(self).spec_gid(),
            match r {
                Ok(ino) => {
                    &&& insert_error(old(self)@, old(self).next_id(), parent, symlink@.name) is None
                    &&& ino == old(self).next_id()
                    &&& final(self).next_id() == ino + 1
                    &&& final(self)@ == inserted(old(self)@, parent, symlink@, ino, now)
                },
                Err(e) => {
                    &&& insert_error(old(self)@, old(self).next_id(), parent, symlink@.name) == Some(
                        e,
                    )
                    &&& final(self)@ == old(self)@
                    &&& final(self).next_id() == old(self).next_id()
                },
            },
    {
        self.insert_node(parent, NodeRef::Symlink(symlink), now)
    }

    /// Removes node `ino` from the table and from its directory's entries, and sets
    /// that directory's times. The caller sees to it that a directory removed this
    /// way is empty; the root is never removed.
    pub fn remove(&mut self, ino: Ino, now: Timestamp) -> (r: Option<NodeRef>)
        requires
            old(self).wf(),
            old(self)@.contains_key(ino) ==> ino != ROOT_INO && old(self)@[ino].children().len()
                == 0,
        ensures
            final(self).wf(),
            final(self).next_id() == old(self).next_id(),
            final(self).spec_uid() == old(self).spec_uid(),
            final(self).spec_gid() == old(self).spec_gid(),
            match r {
                Some(n) => {
                    &&& old(self)@.contains_key(ino)
                    &&& n@ == old(self)@[ino]
                    &&& final(self)@ == removed(old(self)@, ino, now)
                },
                None => !old(self)@.contains_key(ino) && final(self)@ == old(self)@,
            },
    {
        let (p, name) = match self.inodes.get(&ino) {
            None => {
                return None;
            },
            Some(n) => {
                proof {
                    assert(self@.contains_key(ino));
                    assert(n@ == self@[ino]);
                }
                (
                    match n {
                        NodeRef::File(f) => f.parent_ino,
                        NodeRef::Dir(d) => d.parent_ino,
                        NodeRef::Symlink(s) => s.parent_ino,
                    },
                    n.name().clone(),
                )
            },
        };
        let ghost m = self@;
        proof {
            lemma_detach(m, self.next_ino, ino, now);
        }
        let idx = match self.get_dir(p) {
            Some(d) => match d.find(&name) {
                Some(i) => i,
                None => {
                    proof {
                        assert(false);
                    }
                    return None;
                },
            },
            None => {
                proof {
                    assert(false);
                }
                return None;
            },
        };
        proof {
            assert(m[p].children()[idx as int].0 == name@);
            lemma_wf_child(m, self.next_ino, p, idx as int);
        }
        self.detach_entry(p, idx, now);
        let node = self.take(ino);
        proof {
            lemma_drop(without_entry(m, p, idx as int, now), self.next_ino, ino);
        }
        Some(node)
    }

    /// Moves the entry `old_name` of directory `old_parent` to name `new_name` in
    /// directory `new_parent`: the node keeps its identifier, takes the new name and
    /// parent, and its change time and both directories' times are set. Refused, with
    /// nothing changed, when the source is missing, when `new_parent` is missing or
    /// not a directory, or when `new_name` there lists another node.
    pub fn rename(
        &mut self,
        old_parent: Ino,
        old_name: &str,
        new_parent: Ino,
        new_name: &str,
        now: Timestamp,
    ) -> (r: Result<(), FsError>)
        requires
            old(self).wf(),
        ensures
            final(self).wf(),
            final(self).next_id() == old(self).next_id(),
            final(self).spec_uid() == old(self).spec_uid(),
            final(self).spec_gid() == old(self).spec_gid(),
            match r {
                Ok(()) => {
                    &&& rename_error(old(self)@, old_parent, old_name@, new_parent, new_name@)
                        is None
                    &&& final(self)@ == renamed(
                        old(self)@,
                        old_parent,
                        old_name@,
                        new_parent,
                        new_name@,
                        now,
                    )
                },
                Err(e) => {
                    &&& rename_error(old(self)@, old_parent, old_name@, new_parent, new_name@)
                        == Some(e)
                    &&& final(self)@ == old(self)@
                },
            },
    {
        let ghost m = self@;
        let c = match self.lookup(old_parent, old_name) {
            Some(c) => c,
            None => {
                return Err(FsError::NotFound);
            },
        };
        let key = new_name.to_owned();
        match self.get_dir(new_parent) {
            Some(d) => match d.find(&key) {
                Some(j) => {
                    proof {
                        assert(d@.children()[j as int] == (d.children@[j as int].0@, d.children@[j as int].1));
                        lemma_wf_child(m, self.next_ino, new_parent, j as int);
                    }
                    if d.children[j].1 != c {
                        return Err(FsError::AlreadyExists);
                    }
                    proof {
                        lemma_wf_child(m, self.next_ino, new_parent, j as int);
                        lemma_wf_child(
                            m,
                            self.next_ino,
                            old_parent,
                            name_index(m[old_parent].children(), old_name@),
                        );
                    }
                },
                None => {},
            },
            None => {
                if self.inodes.contains_key(&new_parent) {
                    return Err(FsError::NotDirectory);
                } else {
                    return Err(FsError::NotFound);
                }
            },
        }
        let ghost cs = m[old_parent].children();
        let old_key = old_name.to_owned();
        let idx = match self.get_dir(old_parent) {
            Some(d) => match d.find(&old_key) {
                Some(i) => i,
                None => {
                    proof {
                        assert(false);
                    }
                    return Err(FsError::NotFound);
                },
            },
            None => {
                proof {
                    assert(false);
                }
                return Err(FsError::NotFound);
            },
        };
        proof {
            assert(cs[idx as int].0 == old_name@);
            lemma_wf_child(m, self.next_ino, old_parent, idx as int);
            lemma_detach(m, self.next_ino, c, now);
        }
        self.detach_entry(old_parent, idx, now);
        let ghost m1 = self@;
        let mut node = self.take(c);
        node.relink(key, new_parent, now);
        let name = node.name().clone();
        self.put(c, node);
        proof {
            lemma_relink(m1, self.next_ino, c, new_name@, new_parent, now);
            assert(self@ =~= m1.insert(c, NodeView { name: new_name@, parent: new_parent, ctime: now, ..m1[c] }));
            lemma_child_ino_remove(cs, idx as int, new_name@);
            lemma_attach(self@, self.next_ino, c, now);
        }
        self.attach_entry(new_parent, name, c, now);
        Ok(())
    }

    /// Cuts file `ino` to `size` bytes or zero-extends it, setting its modification
    /// and change times.
    pub fn truncate_file(&mut self, ino: Ino, size: usize, now: Timestamp)
        requires
            old(self).wf(),
            old(self)@.contains_key(ino),
            old(self)@[ino].is_file(),
        ensures
            final(self).wf(),
            final(self).next_id() == old(self).next_id(),
            final(self).spec_uid() == old(self).spec_uid(),
            final(self).spec_gid() == old(self).spec_gid(),
            final(self)@ == old(self)@.insert(
                ino,
                old(self)@[ino].with_content(resized(old(self)@[ino].content(), size as nat)).touched(
                    now,
                ),
            ),
    {
        let ghost m = self@;
        let n = self.take(ino);
        match n {
            NodeRef::File(mut f) => {
                f.truncate(size, now);
                self.put(ino, NodeRef::File(f));
            },
            other => {
                proof {
                    assert(false);
                }
                self.put(ino, other);
            },
        }
        proof {
            lemma_same_shape(m, self@, self.next_ino);
        }
    }

    /// Writes `data` at `offset` in file `ino`, zero-extending it first where it is
    /// too short, and sets its modification and change times.
    pub fn write_file(&mut self, ino: Ino, offset: usize, data: &[u8], now: Timestamp)
        requires
            old(self).wf(),
            old(self)@.contains_key(ino),
            old(self)@[ino].is_file(),
            offset + data@.len() <= usize::MAX,
        ensures
            final(self).wf(),
            final(self).next_id() == old(self).next_id(),
            final(self).spec_uid() == old(self).spec_uid(),
            final(self).spec_gid() == old(self).spec_gid(),
            final(self)@ == old(self)@.insert(
                ino,
                old(self)@[ino].with_content(
                    written(old(self)@[ino].content(), offset as nat, data@),
                ).touched(now),
            ),
    {
        let ghost m = self@;
        let n = self.take(ino);
        match n {
            NodeRef::File(mut f) => {
                f.write_at(offset, data, now);
                self.put(ino, NodeRef::File(f));
            },
            other => {
                proof {
                    assert(false);
                }
                self.put(ino, other);
            },
        }
        proof {
            lemma_same_shape(m, self@, self.next_ino);
        }
    }

    /// Sets the permission bits of node `ino`; a symlink keeps none.
    pub fn set_mode(&mut self, ino: Ino, mode: u16)
        requires
            old(self).wf(),
            old(self)@.contains_key(ino),
        ensures
            final(self).wf(),
            final(self).next_id() == old(self).next_id(),
            final(self).spec_uid() == old(self).spec_uid(),
            final(self).spec_gid() == old(self).spec_gid(),
            final(self)@ == old(self)@.insert(ino, with_mode(old(self)@[ino], mode)),
    {
        let ghost m = self@;
        let mut n = self.take(ino);
        n.set_mode(mode);
        self.put(ino, n);
        proof {
            lemma_same_shape(m, self@, self.next_ino);
        }
    }

    /// Sets the access and modification times of node `ino` where given, and its
    /// change time to `ctime`.
    pub fn set_times(
        &mut self,
        ino: Ino,
        atime: Option<Timestamp>,
        mtime: Option<Timestamp>,
        ctime: Timestamp,
    )
        requires
            old(self).wf(),
            old(self)@.contains_key(ino),
        ensures
            final(self).wf(),
            final(self).next_id() == old(self).next_id(),
            final(self).spec_uid() == old(self).spec_uid(),
            final(self).spec_gid() == old(self).spec_gid(),
            final(self)@ == old(self)@.insert(
                ino,
                NodeView {
                    atime: match atime {
                        Some(t) => t,
                        None => old(self)@[ino].atime,
                    },
                    mtime: match mtime {
                        Some(t) => t,
                        None => old(self)@[ino].mtime,
                    },
                    ctime,
                    ..old(self)@[ino]
                },
            ),
    {
        let ghost m = self@;
        let mut n = self.take(ino);
        n.set_times(atime, mtime, ctime);
        self.put(ino, n);
        proof {
            lemma_same_shape(m, self@, self.next_ino);
        }
    }
}

} // verus!
