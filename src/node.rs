use vstd::prelude::*;

verus! {

/// Identifier of a node in the inode table.
pub type Ino = u64;

/// The root directory's identifier; no other node ever receives it.
pub const ROOT_INO: Ino = 1;

/// A point in time, as seconds and nanoseconds since the Unix epoch.
#[derive(Clone, Copy, Debug, PartialEq, Eq, Structural)]
pub struct Timestamp {
    pub secs: u64,
    pub nanos: u32,
}

/// The three kinds of node the tree holds.
#[derive(Clone, Copy, Debug, PartialEq, Eq, Structural)]
pub enum FileKind {
    File,
    Directory,
    Symlink,
}

/// Attributes of a node as `stat` reports them.
#[derive(Clone, Copy, Debug, PartialEq, Eq, Structural)]
pub struct FileAttr {
    pub ino: Ino,
    pub size: u64,
    pub blocks: u64,
    pub atime: Timestamp,
    pub mtime: Timestamp,
    pub ctime: Timestamp,
    pub crtime: Timestamp,
    pub kind: FileKind,
    pub perm: u16,
    pub nlink: u32,
    pub uid: u32,
    pub gid: u32,
}

impl FileAttr {
    /// Attributes of a fresh, empty regular file with permission 0644.
    pub fn new_file(ino: Ino, uid: u32, gid: u32, now: Timestamp) -> (r: FileAttr)
        ensures
            r == (FileAttr {
                ino,
                size: 0,
                blocks: 0,
                atime: now,
                mtime: now,
                ctime: now,
                crtime: now,
                kind: FileKind::File,
                perm: 0o644,
                nlink: 1,
                uid,
                gid,
            }),
    {
        FileAttr {
            ino,
            size: 0,
            blocks: 0,
            atime: now,
            mtime: now,
            ctime: now,
            crtime: now,
            kind: FileKind::File,
            perm: 0o644,
            nlink: 1,
            uid,
            gid,
        }
    }

    /// Attributes of a fresh, empty directory with permission 0755.
    pub fn new_dir(ino: Ino, uid: u32, gid: u32, now: Timestamp) -> (r: FileAttr)
        ensures
            r == (FileAttr {
                ino,
                size: 0,
                blocks: 0,
                atime: now,
                mtime: now,
                ctime: now,
                crtime: now,
                kind: FileKind::Directory,
                perm: 0o755,
                nlink: 2,
                uid,
                gid,
            }),
    {
        FileAttr {
            ino,
            size: 0,
            blocks: 0,
            atime: now,
            mtime: now,
            ctime: now,
            crtime: now,
            kind: FileKind::Directory,
            perm: 0o755,
            nlink: 2,
            uid,
            gid,
        }
    }
}

/// The variant-specific part of a node's abstract state.
pub enum NodeBody {
    File { content: Seq<u8>, mode: u16 },
    Dir { mode: u16, children: Seq<(Seq<char>, Ino)> },
    Symlink { target: Seq<char> },
}

/// Abstract state of a node: what the executable node types are viewed as.
pub struct NodeView {
    pub name: Seq<char>,
    pub ino: Ino,
    pub parent: Ino,
    pub atime: Timestamp,
    pub mtime: Timestamp,
    pub ctime: Timestamp,
    pub body: NodeBody,
}

impl NodeView {
    pub open spec fn is_file(self) -> bool {
        self.body is File
    }

    pub open spec fn is_dir(self) -> bool {
        self.body is Dir
    }

    pub open spec fn is_symlink(self) -> bool {
        self.body is Symlink
    }

    pub open spec fn kind(self) -> FileKind {
        match self.body {
            NodeBody::File { .. } => FileKind::File,
            NodeBody::Dir { .. } => FileKind::Directory,
            NodeBody::Symlink { .. } => FileKind::Symlink,
        }
    }

    /// The directory's entries in listing order; empty for other kinds.
    pub open spec fn children(self) -> Seq<(Seq<char>, Ino)> {
        match self.body {
            NodeBody::Dir { children, .. } => children,
            _ => Seq::empty(),
        }
    }

    /// The file's bytes; empty for other kinds.
    pub open spec fn content(self) -> Seq<u8> {
        match self.body {
            NodeBody::File { content, .. } => content,
            _ => Seq::empty(),
        }
    }

    /// Stored permission bits (a symlink has none).
    pub open spec fn mode(self) -> u16 {
        match self.body {
            NodeBody::File { mode, .. } => mode,
            NodeBody::Dir { mode, .. } => mode,
            NodeBody::Symlink { .. } => 0,
        }
    }

    pub open spec fn target(self) -> Seq<char> {
        match self.body {
            NodeBody::Symlink { target } => target,
            _ => Seq::empty(),
        }
    }

    /// The same node with its modification and change times set to `t`.
    pub open spec fn touched(self, t: Timestamp) -> NodeView {
        NodeView { mtime: t, ctime: t, ..self }
    }

    /// The same directory with `cs` as its entries.
    pub open spec fn with_children(self, cs: Seq<(Seq<char>, Ino)>) -> NodeView {
        NodeView { body: NodeBody::Dir { mode: self.mode(), children: cs }, ..self }
    }

    /// The same file with `c` as its content.
    pub open spec fn with_content(self, c: Seq<u8>) -> NodeView {
        NodeView { body: NodeBody::File { content: c, mode: self.mode() }, ..self }
    }
}

/// `n` with permission bits `mode`; a symlink is left as it is.
pub open spec fn with_mode(n: NodeView, mode: u16) -> NodeView {
    match n.body {
        NodeBody::File { content, .. } => NodeView { body: NodeBody::File { content, mode }, ..n },
        NodeBody::Dir { children, .. } => NodeView { body: NodeBody::Dir { mode, children }, ..n },
        NodeBody::Symlink { .. } => n,
    }
}

/// Some entry of `cs` is named `name`.
pub open spec fn has_name(cs: Seq<(Seq<char>, Ino)>, name: Seq<char>) -> bool {
    exists|i: int| 0 <= i < cs.len() && #[trigger] cs[i].0 == name
}

/// No two entries of `cs` share a name.
pub open spec fn names_unique(cs: Seq<(Seq<char>, Ino)>) -> bool {
    forall|i: int, j: int|
        0 <= i < cs.len() && 0 <= j < cs.len() && #[trigger] cs[i].0 == #[trigger] cs[j].0 ==> i == j
}

/// The position of an entry of `cs` named `name` (meaningful when one exists).
pub open spec fn name_index(cs: Seq<(Seq<char>, Ino)>, name: Seq<char>) -> int {
    choose|i: int| 0 <= i < cs.len() && #[trigger] cs[i].0 == name
}

/// The identifier that the entry named `name` of `cs` refers to.
pub open spec fn child_ino(cs: Seq<(Seq<char>, Ino)>, name: Seq<char>) -> Option<Ino> {
    if has_name(cs, name) {
        Some(cs[name_index(cs, name)].1)
    } else {
        None
    }
}

pub proof fn lemma_child_ino_at(cs: Seq<(Seq<char>, Ino)>, i: int)
    requires
        names_unique(cs),
        0 <= i < cs.len(),
    ensures
        has_name(cs, cs[i].0),
        name_index(cs, cs[i].0) == i,
        child_ino(cs, cs[i].0) == Some(cs[i].1),
{
    assert(has_name(cs, cs[i].0));
}

pub proof fn lemma_child_ino_push(cs: Seq<(Seq<char>, Ino)>, name: Seq<char>, ino: Ino, x: Seq<char>)
    requires
        names_unique(cs),
        !has_name(cs, name),
    ensures
        names_unique(cs.push((name, ino))),
        child_ino(cs.push((name, ino)), x) == if x == name {
            Some(ino)
        } else {
            child_ino(cs, x)
        },
{
    let ds = cs.push((name, ino));
    assert forall|i: int, j: int|
        0 <= i < ds.len() && 0 <= j < ds.len() && #[trigger] ds[i].0 == #[trigger] ds[j].0 implies i
        == j by {
        if i < cs.len() && j < cs.len() {
            assert(cs[i].0 == cs[j].0);
        } else if i < cs.len() {
            assert(cs[i].0 == name);
        } else if j < cs.len() {
            assert(cs[j].0 == name);
        }
    }
    if x == name {
        lemma_child_ino_at(ds, cs.len() as int);
    } else if has_name(cs, x) {
        let i = choose|i: int| 0 <= i < cs.len() && #[trigger] cs[i].0 == x;
        lemma_child_ino_at(cs, i);
        lemma_child_ino_at(ds, i);
    } else {
        assert forall|i: int| 0 <= i < ds.len() implies #[trigger] ds[i].0 != x by {
            if i < cs.len() {
                assert(ds[i] == cs[i]);
            }
        }
    }
}

pub proof fn lemma_child_ino_remove(cs: Seq<(Seq<char>, Ino)>, k: int, x: Seq<char>)
    requires
        names_unique(cs),
        0 <= k < cs.len(),
    ensures
        names_unique(cs.remove(k)),
        child_ino(cs.remove(k), x) == if x == cs[k].0 {
            None
        } else {
            child_ino(cs, x)
        },
{
    let ds = cs.remove(k);
    assert forall|i: int, j: int|
        0 <= i < ds.len() && 0 <= j < ds.len() && #[trigger] ds[i].0 == #[trigger] ds[j].0 implies i
        == j by {
        let ii = if i < k { i } else { i + 1 };
        let jj = if j < k { j } else { j + 1 };
        assert(ds[i] == cs[ii]);
        assert(ds[j] == cs[jj]);
        assert(cs[ii].0 == cs[jj].0);
    }
    if has_name(ds, x) {
        let i = choose|i: int| 0 <= i < ds.len() && #[trigger] ds[i].0 == x;
        let ii = if i < k { i } else { i + 1 };
        assert(ds[i] == cs[ii]);
        lemma_child_ino_at(ds, i);
        lemma_child_ino_at(cs, ii);
    } else if has_name(cs, x) {
        let i = choose|i: int| 0 <= i < cs.len() && #[trigger] cs[i].0 == x;
        if i != k {
            let d = if i < k { i } else { i - 1 };
            assert(ds[d] == cs[i]);
        }
    }
}

/// `n` zero bytes.
pub open spec fn zeros(n: nat) -> Seq<u8> {
    Seq::new(n, |i: int| 0u8)
}

/// `c` cut or zero-extended to length `n`.
pub open spec fn resized(c: Seq<u8>, n: nat) -> Seq<u8> {
    if n <= c.len() {
        c.subrange(0, n as int)
    } else {
        c + zeros((n - c.len()) as nat)
    }
}

/// `c` after `data` is written at `off`, zero-extending `c` first if it is too short.
pub open spec fn written(c: Seq<u8>, off: nat, data: Seq<u8>) -> Seq<u8> {
    let base = if off + data.len() > c.len() {
        resized(c, off + data.len())
    } else {
        c
    };
    Seq::new(
        base.len(),
        |i: int|
            if off <= i < off + data.len() {
                data[i - off]
            } else {
                base[i]
            },
    )
}

/// The bytes of `c` in `[off, off + size)`, stopping at its end.
pub open spec fn read_range(c: Seq<u8>, off: nat, size: nat) -> Seq<u8> {
    if off >= c.len() {
        Seq::empty()
    } else if off + size <= c.len() {
        c.subrange(off as int, (off + size) as int)
    } else {
        c.subrange(off as int, c.len() as int)
    }
}

/// Writing `data` at `off` and then reading `data.len()` bytes at `off` gives `data`
/// back, whatever the file held; on a file that was empty, any range that ends at or
/// before `off` reads as zero bytes, one for each byte asked for.
pub proof fn lemma_write_then_read(c: Seq<u8>, off: nat, data: Seq<u8>, start: nat, size: nat)
    ensures
        read_range(written(c, off, data), off, data.len()) == data,
        c.len() == 0 && start + size <= off ==> read_range(
            written(c, off, data),
            start,
            size,
        ) == zeros(size),
{
    let w = written(c, off, data);
    assert(w.len() >= off + data.len());
    assert(read_range(w, off, data.len()) =~= data);
    if c.len() == 0 && start + size <= off {
        assert(read_range(w, start, size) =~= zeros(size));
    }
}

/// Resizing to the current length changes nothing; cutting to `n` and growing back
/// to the old length keeps the first `n` bytes and zero-fills the rest.
pub proof fn lemma_resize_laws(c: Seq<u8>, n: nat)
    ensures
        resized(c, c.len()) == c,
        n <= c.len() ==> resized(resized(c, n), c.len()) == c.subrange(0, n as int) + zeros(
            (c.len() - n) as nat,
        ),
{
    assert(resized(c, c.len()) =~= c);
    if n <= c.len() {
        assert(resized(c, n).len() == n);
        assert(resized(resized(c, n), c.len()) =~= c.subrange(0, n as int) + zeros(
            (c.len() - n) as nat,
        ));
    }
}

/// `v` cut or zero-extended to length `n`.
fn resize_bytes(v: &mut Vec<u8>, n: usize)
    ensures
        final(v)@ == resized(old(v)@, n as nat),
{
    if n <= v.len() {
        v.truncate(n);
    } else {
        let ghost start = v@;
        while v.len() < n
            invariant
                start.len() < n,
                start.len() <= v@.len() <= n,
                v@ == start + zeros((v@.len() - start.len()) as nat),
            decreases n - v@.len(),
        {
            v.push(0u8);
            assert(v@ =~= start + zeros((v@.len() - start.len()) as nat));
        }
    }
}

/// A regular file.
pub struct PyFile {
    pub name: String,
    pub content: Vec<u8>,
    pub mode: u16,
    pub ino: Ino,
    pub parent_ino: Ino,
    pub mtime: Timestamp,
    pub atime: Timestamp,
    pub ctime: Timestamp,
}

impl View for PyFile {
    type V = NodeView;

    open spec fn view(&self) -> NodeView {
        NodeView {
            name: self.name@,
            ino: self.ino,
            parent: self.parent_ino,
            atime: self.atime,
            mtime: self.mtime,
            ctime: self.ctime,
            body: NodeBody::File { content: self.content@, mode: self.mode },
        }
    }
}

impl PyFile {
    /// A detached file holding `content` (empty when none is given); all times are `now`.
    pub fn new(name: String, content: Option<&[u8]>, mode: u16, now: Timestamp) -> (r: PyFile)
        ensures
            r@ == (NodeView {
                name: name@,
                ino: 0,
                parent: 0,
                atime: now,
                mtime: now,
                ctime: now,
                body: NodeBody::File {
                    content: match content {
                        Some(c) => c@,
                        None => Seq::empty(),
                    },
                    mode,
                },
            }),
    {
        let data = match content {
            Some(c) => vstd::slice::slice_to_vec(c),
            None => Vec::new(),
        };
        PyFile {
            name,
            content: data,
            mode,
            ino: 0,
            parent_ino: 0,
            mtime: now,
            atime: now,
            ctime: now,
        }
    }

    /// Size of the content in bytes.
    pub fn size(&self) -> (r: usize)
        ensures
            r == self.content@.len(),
    {
        self.content.len()
    }

    /// A copy of the content.
    pub fn read(&self) -> (r: Vec<u8>)
        ensures
            r@ == self.content@,
    {
        vstd::slice::slice_to_vec(self.content.as_slice())
    }

    /// Replaces the whole content by `data`.
    pub fn write(&mut self, data: &[u8], now: Timestamp)
        ensures
            final(self)@ == old(self)@.with_content(data@).touched(now),
    {
        self.content = vstd::slice::slice_to_vec(data);
        self.mtime = now;
        self.ctime = now;
    }

    /// Cuts the content to `size` bytes, or zero-extends it to that length.
    pub fn truncate(&mut self, size: usize, now: Timestamp)
        ensures
            final(self)@ == old(self)@.with_content(resized(old(self).content@, size as nat)).touched(
                now,
            ),
    {
        resize_bytes(&mut self.content, size);
        self.mtime = now;
        self.ctime = now;
    }

    /// Bytes `[offset, offset + size)` of the content, stopping at its end.
    pub fn read_at(&self, offset: u64, size: u32) -> (r: Vec<u8>)
        ensures
            r@ == read_range(self.content@, offset as nat, size as nat),
    {
        let len = self.content.len();
        if offset >= len as u64 {
            return Vec::new();
        }
        let start = offset as usize;
        let end = if (size as u64) <= (len - start) as u64 {
            start + size as usize
        } else {
            len
        };
        let mut out: Vec<u8> = Vec::new();
        let mut i: usize = start;
        while i < end
            invariant
                start <= i <= end <= len,
                len == self.content@.len(),
                out@ == self.content@.subrange(start as int, i as int),
            decreases end - i,
        {
            out.push(self.content[i]);
            i = i + 1;
            assert(out@ =~= self.content@.subrange(start as int, i as int));
        }
        out
    }

    /// Writes `data` at `offset`, zero-extending the content first where it is too short.
    pub fn write_at(&mut self, offset: usize, data: &[u8], now: Timestamp)
        requires
            offset + data@.len() <= usize::MAX,
        ensures
            final(self)@ == old(self)@.with_content(
                written(old(self).content@, offset as nat, data@),
            ).touched(now),
    {
        let needed = offset + data.len();
        if needed > self.content.len() {
            resize_bytes(&mut self.content, needed);
        }
        let ghost base = self.content@;
        assert(base == if offset + data@.len() > old(self).content@.len() {
            resized(old(self).content@, (offset + data@.len()) as nat)
        } else {
            old(self).content@
        });
        let mut i: usize = 0;
        while i < data.len()
            invariant
                needed == offset + data@.len(),
                needed <= base.len(),
                self.name == old(self).name,
                self.mode == old(self).mode,
                self.ino == old(self).ino,
                self.parent_ino == old(self).parent_ino,
                self.atime == old(self).atime,
                self.content@.len() == base.len(),
                0 <= i <= data@.len(),
                forall|j: int|
                    0 <= j < base.len() ==> #[trigger] self.content@[j] == if offset <= j < offset
                        + i {
                        data@[j - offset]
                    } else {
                        base[j]
                    },
            decreases data@.len() - i,
        {
            self.content[offset + i] = data[i];
            i = i + 1;
        }
        assert(self.content@ =~= written(old(self).content@, offset as nat, data@));
        self.mtime = now;
        self.ctime = now;
    }
}

/// A directory: its entries map names to identifiers, in listing order.
pub struct PyDirectory {
    pub name: String,
    pub mode: u16,
    pub ino: Ino,
    pub parent_ino: Ino,
    pub children: Vec<(String, Ino)>,
    pub mtime: Timestamp,
    pub atime: Timestamp,
    pub ctime: Timestamp,
}

/// The abstract entries of an executable entry list.
pub open spec fn entries_view(cs: Seq<(String, Ino)>) -> Seq<(Seq<char>, Ino)> {
    cs.map_values(|e: (String, Ino)| (e.0@, e.1))
}

impl View for PyDirectory {
    type V = NodeView;

    open spec fn view(&self) -> NodeView {
        NodeView {
            name: self.name@,
            ino: self.ino,
            parent: self.parent_ino,
            atime: self.atime,
            mtime: self.mtime,
            ctime: self.ctime,
            body: NodeBody::Dir { mode: self.mode, children: entries_view(self.children@) },
        }
    }
}

impl PyDirectory {
    /// A detached, empty directory; all times are `now`.
    pub fn new(name: String, mode: u16, now: Timestamp) -> (r: PyDirectory)
        ensures
            r@ == (NodeView {
                name: name@,
                ino: 0,
                parent: 0,
                atime: now,
                mtime: now,
                ctime: now,
                body: NodeBody::Dir { mode, children: Seq::empty() },
            }),
    {
        let r = PyDirectory {
            name,
            mode,
            ino: 0,
            parent_ino: 0,
            children: Vec::new(),
            mtime: now,
            atime: now,
            ctime: now,
        };
        assert(entries_view(r.children@) =~= Seq::empty());
        r
    }

    /// The index of the entry named `name`, if there is one.
    pub fn find(&self, name: &String) -> (r: Option<usize>)
        ensures
            match r {
                Some(i) => i < self.children@.len() && self.children@[i as int].0@ == name@,
                None => !has_name(self@.children(), name@),
            },
    {
        let mut i: usize = 0;
        while i < self.children.len()
            invariant
                0 <= i <= self.children@.len(),
                forall|j: int| 0 <= j < i ==> #[trigger] self.children@[j].0@ != name@,
            decreases self.children@.len() - i,
        {
            if self.children[i].0 == *name {
                return Some(i);
            }
            i = i + 1;
        }
        assert forall|j: int| 0 <= j < self@.children().len() implies #[trigger] self@.children()[j].0
            != name@ by {
            assert(self@.children()[j].0 == self.children@[j].0@);
        }
        None
    }
}

/// A symbolic link; its target is stored as given and never resolved.
pub struct PySymlink {
    pub name: String,
    pub target: String,
    pub ino: Ino,
    pub parent_ino: Ino,
    pub mtime: Timestamp,
    pub atime: Timestamp,
    pub ctime: Timestamp,
}

impl View for PySymlink {
    type V = NodeView;

    open spec fn view(&self) -> NodeView {
        NodeView {
            name: self.name@,
            ino: self.ino,
            parent: self.parent_ino,
            atime: self.atime,
            mtime: self.mtime,
            ctime: self.ctime,
            body: NodeBody::Symlink { target: self.target@ },
        }
    }
}

impl PySymlink {
    /// A detached symlink to `target`; all times are `now`.
    pub fn new(name: String, target: String, now: Timestamp) -> (r: PySymlink)
        ensures
            r@ == (NodeView {
                name: name@,
                ino: 0,
                parent: 0,
                atime: now,
                mtime: now,
                ctime: now,
                body: NodeBody::Symlink { target: target@ },
            }),
    {
        PySymlink { name, target, ino: 0, parent_ino: 0, mtime: now, atime: now, ctime: now }
    }
}

/// A node of any kind, as the inode table stores it.
pub enum NodeRef {
    File(PyFile),
    Dir(PyDirectory),
    Symlink(PySymlink),
}

impl View for NodeRef {
    type V = NodeView;

    open spec fn view(&self) -> NodeView {
        match self {
            NodeRef::File(f) => f@,
            NodeRef::Dir(d) => d@,
            NodeRef::Symlink(s) => s@,
        }
    }
}

impl NodeRef {
    pub fn name(&self) -> (r: &String)
        ensures
            r@ == self@.name,
    {
        match self {
            NodeRef::File(f) => &f.name,
            NodeRef::Dir(d) => &d.name,
            NodeRef::Symlink(s) => &s.name,
        }
    }

    /// Records the node's own identifier and that of its directory.
    pub(crate) fn attach(&mut self, ino: Ino, parent: Ino)
        ensures
            final(self)@ == (NodeView { ino, parent, ..old(self)@ }),
    {
        match self {
            NodeRef::File(f) => {
                f.ino = ino;
                f.parent_ino = parent;
            },
            NodeRef::Dir(d) => {
                d.ino = ino;
                d.parent_ino = parent;
            },
            NodeRef::Symlink(s) => {
                s.ino = ino;
                s.parent_ino = parent;
            },
        }
    }

    /// Gives the node a new name and directory, and sets its change time.
    pub(crate) fn relink(&mut self, name: String, parent: Ino, now: Timestamp)
        ensures
            final(self)@ == (NodeView { name: name@, parent, ctime: now, ..old(self)@ }),
    {
        match self {
            NodeRef::File(f) => {
                f.name = name;
                f.parent_ino = parent;
                f.ctime = now;
            },
            NodeRef::Dir(d) => {
                d.name = name;
                d.parent_ino = parent;
                d.ctime = now;
            },
            NodeRef::Symlink(s) => {
                s.name = name;
                s.parent_ino = parent;
                s.ctime = now;
            },
        }
    }

    /// Sets the access and modification times where given, and the change time.
    pub(crate) fn set_times(&mut self, atime: Option<Timestamp>, mtime: Option<Timestamp>, ctime: Timestamp)
        ensures
            final(self)@ == (NodeView {
                atime: match atime {
                    Some(t) => t,
                    None => old(self)@.atime,
                },
                mtime: match mtime {
                    Some(t) => t,
                    None => old(self)@.mtime,
                },
                ctime,
                ..old(self)@
            }),
    {
        match self {
            NodeRef::File(f) => {
                if let Some(t) = atime {
                    f.atime = t;
                }
                if let Some(t) = mtime {
                    f.mtime = t;
                }
                f.ctime = ctime;
            },
            NodeRef::Dir(d) => {
                if let Some(t) = atime {
                    d.atime = t;
                }
                if let Some(t) = mtime {
                    d.mtime = t;
                }
                d.ctime = ctime;
            },
            NodeRef::Symlink(s) => {
                if let Some(t) = atime {
                    s.atime = t;
                }
                if let Some(t) = mtime {
                    s.mtime = t;
                }
                s.ctime = ctime;
            },
        }
    }

    /// Sets the permission bits of a file or directory; a symlink keeps none.
    pub(crate) fn set_mode(&mut self, mode: u16)
        ensures
            final(self)@ == with_mode(old(self)@, mode),
    {
        match self {
            NodeRef::File(f) => {
                f.mode = mode;
            },
            NodeRef::Dir(d) => {
                d.mode = mode;
            },
            NodeRef::Symlink(_) => {},
        }
    }

    pub fn kind(&self) -> (r: FileKind)
        ensures
            r == self@.kind(),
    {
        match self {
            NodeRef::File(_) => FileKind::File,
            NodeRef::Dir(_) => FileKind::Directory,
            NodeRef::Symlink(_) => FileKind::Symlink,
        }
    }

    /// An independent copy of the node.
    pub fn clone_ref(&self) -> (r: NodeRef)
        ensures
            r@ == self@,
    {
        match self {
            NodeRef::File(f) => NodeRef::File(
                PyFile {
                    name: f.name.clone(),
                    content: f.read(),
                    mode: f.mode,
                    ino: f.ino,
                    parent_ino: f.parent_ino,
                    mtime: f.mtime,
                    atime: f.atime,
                    ctime: f.ctime,
                },
            ),
            NodeRef::Dir(d) => {
                let mut cs: Vec<(String, Ino)> = Vec::new();
                let mut i: usize = 0;
                while i < d.children.len()
                    invariant
                        0 <= i <= d.children@.len(),
                        cs@.len() == i,
                        forall|j: int|
                            0 <= j < i ==> (#[trigger] cs@[j]).0@ == d.children@[j].0@ && cs@[j].1
                                == d.children@[j].1,
                    decreases d.children@.len() - i,
                {
                    let e = &d.children[i];
                    cs.push((e.0.clone(), e.1));
                    i = i + 1;
                }
                assert(entries_view(cs@) =~= entries_view(d.children@));
                NodeRef::Dir(
                    PyDirectory {
                        name: d.name.clone(),
                        mode: d.mode,
                        ino: d.ino,
                        parent_ino: d.parent_ino,
                        children: cs,
                        mtime: d.mtime,
                        atime: d.atime,
                        ctime: d.ctime,
                    },
                )
            },
            NodeRef::Symlink(s) => NodeRef::Symlink(
                PySymlink {
                    name: s.name.clone(),
                    target: s.target.clone(),
                    ino: s.ino,
                    parent_ino: s.parent_ino,
                    mtime: s.mtime,
                    atime: s.atime,
                    ctime: s.ctime,
                },
            ),
        }
    }
}

} // verus!
