use pyrofs::paths;
use pyrofs::{FsError, InodeTable, NodeRef, Timestamp, ROOT_INO};

fn at(secs: u64) -> Timestamp {
    Timestamp { secs, nanos: 0 }
}

fn fresh() -> InodeTable {
    let mut t = InodeTable::new(0, 0);
    t.init_root(at(1));
    t
}

#[test]
fn split_drops_empty_components() {
    assert_eq!(paths::split_path("/a//b/c/"), vec!["a", "b", "c"]);
    assert!(paths::split_path("///").is_empty());
    assert!(paths::split_path("").is_empty());
    assert_eq!(paths::split_path("é/ü"), vec!["é", "ü"]);
}

#[test]
fn create_and_resolve() {
    let mut t = fresh();
    let d = paths::create_dir(&mut t, "/a", 0o755, at(2)).unwrap();
    let f = paths::create_file(&mut t, "a/b.txt", Some(b"hi"), 0o644, at(3)).unwrap();
    assert_eq!(paths::resolve_path(&t, "/a/b.txt"), Ok(f));
    assert_eq!(paths::resolve_path(&t, "a"), Ok(d));
    assert_eq!(paths::resolve_path(&t, "/"), Ok(ROOT_INO));
    assert_eq!(paths::resolve_path(&t, "/a/zz"), Err(FsError::NotFound));
    assert_eq!(paths::resolve_parent(&t, "/a/b.txt"), Ok((d, "b.txt".to_string())));
    assert_eq!(paths::resolve_parent(&t, "/"), Err(FsError::InvalidArgument));
    assert_eq!(paths::resolve_parent(&t, "/a/b.txt/c"), Err(FsError::NotDirectory));
    assert_eq!(paths::resolve_parent(&t, "/q/c"), Err(FsError::NotFound));
    assert!(paths::path_exists(&t, "a/b.txt"));
    assert!(!paths::path_exists(&t, "a/c.txt"));
    match paths::get(&t, "/a/b.txt").unwrap() {
        NodeRef::File(file) => assert_eq!(file.read(), b"hi".to_vec()),
        _ => panic!("expected a file"),
    }
    assert_eq!(paths::create_file(&mut t, "/a/b.txt", None, 0o644, at(4)), Err(FsError::AlreadyExists));
}

#[test]
fn makedirs_creates_missing_directories() {
    let mut t = fresh();
    let a = paths::create_dir(&mut t, "/a", 0o755, at(2)).unwrap();
    let c = paths::makedirs(&mut t, "/a/b/c", 0o700, at(3)).unwrap();
    let b = paths::resolve_path(&t, "/a/b").unwrap();
    assert!(b > a);
    assert_eq!(paths::resolve_path(&t, "/a/b/c"), Ok(c));
    assert_eq!(paths::makedirs(&mut t, "/a/b/c", 0o700, at(4)), Ok(c));
    assert_eq!(paths::makedirs(&mut t, "", 0o700, at(4)), Ok(ROOT_INO));
    paths::create_file(&mut t, "/a/f", None, 0o644, at(5)).unwrap();
    assert_eq!(paths::makedirs(&mut t, "/a/f/g", 0o700, at(6)), Err(FsError::NotDirectory));
}

#[test]
fn symlinks_by_path() {
    let mut t = fresh();
    paths::symlink(&mut t, "/target", "/l", at(2)).unwrap();
    assert!(paths::is_symlink(&t, "/l"));
    assert!(!paths::is_symlink(&t, "/"));
    assert!(!paths::is_symlink(&t, "/none"));
    assert_eq!(paths::readlink(&t, "/l"), Ok("/target".to_string()));
    assert_eq!(paths::readlink(&t, "/"), Err(FsError::InvalidArgument));
    assert_eq!(paths::readlink(&t, "/none"), Err(FsError::NotFound));
}

#[test]
fn remove_by_path() {
    let mut t = fresh();
    paths::makedirs(&mut t, "/d/e", 0o755, at(2)).unwrap();
    paths::create_file(&mut t, "/d/f", None, 0o644, at(2)).unwrap();
    assert_eq!(paths::remove_file(&mut t, "/d", at(3)), Err(FsError::IsDirectory));
    assert_eq!(paths::remove_dir(&mut t, "/d/f", at(3)), Err(FsError::NotDirectory));
    assert_eq!(paths::remove_dir(&mut t, "/d", at(3)), Err(FsError::NotEmpty));
    assert_eq!(paths::remove_dir(&mut t, "/", at(3)), Err(FsError::InvalidArgument));
    assert_eq!(paths::remove_file(&mut t, "/d/f", at(3)), Ok(()));
    assert_eq!(paths::remove_dir(&mut t, "/d/e", at(3)), Ok(()));
    assert_eq!(paths::remove_dir(&mut t, "/d", at(3)), Ok(()));
    assert_eq!(paths::remove_file(&mut t, "/d", at(3)), Err(FsError::NotFound));
}

#[test]
fn listdir_in_order() {
    let mut t = fresh();
    paths::create_file(&mut t, "/b", None, 0o644, at(2)).unwrap();
    paths::create_dir(&mut t, "/a", 0o755, at(2)).unwrap();
    assert_eq!(paths::listdir(&t, "/").unwrap(), vec!["b", "a"]);
    assert_eq!(paths::listdir(&t, "/b"), Err(FsError::NotDirectory));
    assert_eq!(paths::listdir(&t, "/zz"), Err(FsError::NotFound));
}

#[test]
fn rename_by_path() {
    let mut t = fresh();
    paths::makedirs(&mut t, "/a", 0o755, at(2)).unwrap();
    let f = paths::create_file(&mut t, "/a/b.txt", None, 0o644, at(2)).unwrap();
    paths::rename(&mut t, "/a/b.txt", "/c.txt", at(3)).unwrap();
    assert_eq!(paths::resolve_path(&t, "/c.txt"), Ok(f));
    assert!(!paths::path_exists(&t, "/a/b.txt"));
    assert_eq!(paths::rename(&mut t, "/missing", "/x", at(4)), Err(FsError::NotFound));
    assert_eq!(paths::rename(&mut t, "/c.txt", "/a", at(4)), Err(FsError::IsDirectory));
}
