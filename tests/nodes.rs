use pyrofs::{FileAttr, FileKind, PyFile, Timestamp};

fn at(secs: u64) -> Timestamp {
    Timestamp { secs, nanos: 0 }
}

#[test]
fn file_methods() {
    let mut f = PyFile::new("f".to_string(), Some(b"abcdef"), 0o640, at(1));
    assert_eq!(f.size(), 6);
    assert_eq!(f.read_at(2, 3), b"cde".to_vec());
    f.truncate(3, at(2));
    assert_eq!(f.read(), b"abc".to_vec());
    assert_eq!(f.mtime, at(2));
    f.truncate(5, at(3));
    assert_eq!(f.read(), b"abc\0\0".to_vec());
    f.write(b"xy", at(4));
    assert_eq!(f.read(), b"xy".to_vec());
    f.write_at(4, b"z", at(5));
    assert_eq!(f.read(), b"xy\0\0z".to_vec());
    assert_eq!(f.ctime, at(5));
    assert_eq!(f.atime, at(1));
}

#[test]
fn fresh_attributes() {
    let a = FileAttr::new_file(9, 1, 2, at(3));
    assert_eq!((a.kind, a.perm, a.nlink, a.size), (FileKind::File, 0o644, 1, 0));
    let d = FileAttr::new_dir(9, 1, 2, at(3));
    assert_eq!((d.kind, d.perm, d.nlink), (FileKind::Directory, 0o755, 2));
}
