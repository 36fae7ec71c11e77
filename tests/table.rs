use pyrofs::fs;
use pyrofs::{FileKind, FsError, InodeTable, NodeRef, PyDirectory, PyFile, PySymlink, Timestamp, ROOT_INO};

fn at(secs: u64) -> Timestamp {
    Timestamp { secs, nanos: 0 }
}

fn fresh() -> InodeTable {
    let mut t = InodeTable::new(501, 20);
    t.init_root(at(1));
    t
}

#[test]
fn root_is_a_self_parented_directory() {
    let t = fresh();
    let root = t.get_dir(ROOT_INO).unwrap();
    assert_eq!(root.parent_ino, ROOT_INO);
    assert_eq!(root.name, "");
    let a = t.getattr(ROOT_INO).unwrap();
    assert_eq!(a.kind, FileKind::Directory);
    assert_eq!(a.perm, 0o755);
    assert_eq!(a.nlink, 2);
    assert_eq!((a.uid, a.gid), (501, 20));
}

#[test]
fn identifiers_increase_and_are_not_reused() {
    let mut t = fresh();
    let a = t.insert_file(ROOT_INO, PyFile::new("a".to_string(), None, 0o644, at(2)), at(2)).unwrap();
    let b = t.insert_dir(ROOT_INO, PyDirectory::new("b".to_string(), 0o755, at(3)), at(3)).unwrap();
    assert_eq!(a, 2);
    assert!(b > a);
    assert!(t.remove(b, at(4)).is_some());
    let c = t.insert_symlink(ROOT_INO, PySymlink::new("c".to_string(), "a".to_string(), at(5)), at(5)).unwrap();
    assert!(c > b);
    assert!(t.get(b).is_none());
}

#[test]
fn insert_refusals() {
    let mut t = fresh();
    let f = t.insert_file(ROOT_INO, PyFile::new("f".to_string(), None, 0o644, at(2)), at(2)).unwrap();
    let again = t.insert_file(ROOT_INO, PyFile::new("f".to_string(), None, 0o644, at(3)), at(3));
    assert_eq!(again, Err(FsError::AlreadyExists));
    let under_file = t.insert_file(f, PyFile::new("g".to_string(), None, 0o644, at(3)), at(3));
    assert_eq!(under_file, Err(FsError::NotDirectory));
    let under_missing = t.insert_file(99, PyFile::new("g".to_string(), None, 0o644, at(3)), at(3));
    assert_eq!(under_missing, Err(FsError::NotFound));
}

#[test]
fn insert_sets_parent_times_and_links() {
    let mut t = fresh();
    let d = t.insert_dir(ROOT_INO, PyDirectory::new("d".to_string(), 0o700, at(2)), at(7)).unwrap();
    let root = t.getattr(ROOT_INO).unwrap();
    assert_eq!(root.mtime, at(7));
    assert_eq!(root.ctime, at(7));
    assert_eq!(root.nlink, 3);
    assert_eq!(t.lookup(ROOT_INO, "d"), Some(d));
    let node = t.get_dir(d).unwrap();
    assert_eq!(node.parent_ino, ROOT_INO);
    assert_eq!(node.ino, d);
}

#[test]
fn getattr_formulas() {
    let mut t = fresh();
    let content = vec![7u8; 1025];
    let f = t.insert_file(ROOT_INO, PyFile::new("f".to_string(), Some(&content), 0o600, at(2)), at(2)).unwrap();
    let a = t.getattr(f).unwrap();
    assert_eq!(a.size, 1025);
    assert_eq!(a.blocks, 3);
    assert_eq!(a.nlink, 1);
    assert_eq!(a.perm, 0o600);
    assert_eq!(a.crtime, a.ctime);
    let s = t.insert_symlink(ROOT_INO, PySymlink::new("s".to_string(), "héllo".to_string(), at(2)), at(2)).unwrap();
    let sa = t.getattr(s).unwrap();
    assert_eq!(sa.size, 6);
    assert_eq!(sa.perm, 0o777);
    assert_eq!(sa.blocks, 0);
    assert_eq!(sa.kind, FileKind::Symlink);
    let e = t.insert_file(ROOT_INO, PyFile::new("e".to_string(), None, 0o644, at(2)), at(2)).unwrap();
    assert_eq!(t.getattr(e).unwrap().blocks, 0);
    assert!(t.getattr(1000).is_none());
}

#[test]
fn block_count_at_boundary() {
    let mut t = fresh();
    let content = vec![1u8; 512];
    let f = t.insert_file(ROOT_INO, PyFile::new("f".to_string(), Some(&content), 0o644, at(2)), at(2)).unwrap();
    assert_eq!(t.getattr(f).unwrap().blocks, 1);
}

#[test]
fn remove_detaches_from_parent() {
    let mut t = fresh();
    let f = t.insert_file(ROOT_INO, PyFile::new("f".to_string(), None, 0o644, at(2)), at(2)).unwrap();
    let removed = t.remove(f, at(9)).unwrap();
    assert_eq!(removed.kind(), FileKind::File);
    assert_eq!(t.lookup(ROOT_INO, "f"), None);
    assert_eq!(t.getattr(ROOT_INO).unwrap().mtime, at(9));
    assert!(t.remove(f, at(10)).is_none());
}

#[test]
fn table_rename_keeps_identifier() {
    let mut t = fresh();
    let d = t.insert_dir(ROOT_INO, PyDirectory::new("d".to_string(), 0o755, at(2)), at(2)).unwrap();
    let f = t.insert_file(ROOT_INO, PyFile::new("f".to_string(), None, 0o644, at(2)), at(2)).unwrap();
    t.rename(ROOT_INO, "f", d, "g", at(5)).unwrap();
    assert_eq!(t.lookup(ROOT_INO, "f"), None);
    assert_eq!(t.lookup(d, "g"), Some(f));
    let node = t.get_file(f).unwrap();
    assert_eq!(node.name, "g");
    assert_eq!(node.parent_ino, d);
    assert_eq!(node.ctime, at(5));
    assert_eq!(t.rename(ROOT_INO, "nope", d, "x", at(6)), Err(FsError::NotFound));
    assert_eq!(t.rename(d, "g", f, "x", at(6)), Err(FsError::NotDirectory));
    t.insert_file(d, PyFile::new("h".to_string(), None, 0o644, at(2)), at(2)).unwrap();
    assert_eq!(t.rename(d, "g", d, "h", at(6)), Err(FsError::AlreadyExists));
}

#[test]
fn clone_ref_copies_node() {
    let mut t = fresh();
    let d = t.insert_dir(ROOT_INO, PyDirectory::new("d".to_string(), 0o755, at(2)), at(2)).unwrap();
    t.insert_file(d, PyFile::new("x".to_string(), Some(b"abc"), 0o644, at(2)), at(2)).unwrap();
    match t.get(d).unwrap().clone_ref() {
        NodeRef::Dir(c) => {
            assert_eq!(c.children.len(), 1);
            assert_eq!(c.children[0].0, "x");
        }
        _ => panic!("expected a directory"),
    }
}

#[test]
fn readdir_lists_dot_entries_then_children() {
    let mut t = fresh();
    let d = fs::mkdir(&mut t, ROOT_INO, "d", 0o755, at(2)).unwrap().ino;
    let f = fs::create(&mut t, d, "f", 0o644, at(3)).unwrap().ino;
    let l = fs::symlink(&mut t, d, "l", "f", at(4)).unwrap().ino;
    let all = fs::readdir(&t, d, 0).unwrap();
    let names: Vec<&str> = all.iter().map(|e| e.name.as_str()).collect();
    assert_eq!(names, vec![".", "..", "f", "l"]);
    assert_eq!(all[0].ino, d);
    assert_eq!(all[1].ino, ROOT_INO);
    assert_eq!(all[2].ino, f);
    assert_eq!(all[3].ino, l);
    assert_eq!(all[3].kind, FileKind::Symlink);
    let offsets: Vec<u64> = all.iter().map(|e| e.offset).collect();
    assert_eq!(offsets, vec![1, 2, 3, 4]);
    let rest = fs::readdir(&t, d, 3).unwrap();
    assert_eq!(rest.len(), 1);
    assert_eq!(rest[0].name, "l");
    assert!(fs::readdir(&t, d, 10).unwrap().is_empty());
    assert!(matches!(fs::readdir(&t, f, 0), Err(FsError::NotDirectory)));
}
