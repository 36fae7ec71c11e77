use pyrofs::fs::{self, TimeOrNow};
use pyrofs::{FileKind, FsError, InodeTable, Timestamp, ROOT_INO};

fn at(secs: u64) -> Timestamp {
    Timestamp { secs, nanos: 0 }
}

fn fresh() -> InodeTable {
    let mut t = InodeTable::new(0, 0);
    t.init_root(at(1));
    t
}

#[test]
fn write_then_read_round_trip() {
    let mut t = fresh();
    let f = fs::create(&mut t, ROOT_INO, "f", 0o644, at(2)).unwrap().ino;
    assert_eq!(fs::write(&mut t, f, 10, b"abcd", at(3)), Ok(4));
    assert_eq!(fs::read(&t, f, 10, 4).unwrap(), b"abcd".to_vec());
    assert_eq!(fs::read(&t, f, 2, 5).unwrap(), vec![0u8; 5]);
    assert_eq!(fs::getattr(&t, f).unwrap().mtime, at(3));
}

#[test]
fn read_edges() {
    let mut t = fresh();
    let f = fs::create(&mut t, ROOT_INO, "f", 0o644, at(2)).unwrap().ino;
    fs::write(&mut t, f, 0, b"hello", at(3)).unwrap();
    assert_eq!(fs::read(&t, f, 5, 10).unwrap(), Vec::<u8>::new());
    assert_eq!(fs::read(&t, f, 100, 10).unwrap(), Vec::<u8>::new());
    assert_eq!(fs::read(&t, f, 3, 100).unwrap(), b"lo".to_vec());
    assert_eq!(fs::read(&t, f, 1, 0).unwrap(), Vec::<u8>::new());
    assert_eq!(fs::read(&t, ROOT_INO, 0, 1), Err(FsError::NotFound));
}

#[test]
fn write_overwrites_in_place() {
    let mut t = fresh();
    let f = fs::create(&mut t, ROOT_INO, "f", 0o644, at(2)).unwrap().ino;
    fs::write(&mut t, f, 0, b"hello", at(3)).unwrap();
    fs::write(&mut t, f, 1, b"EL", at(4)).unwrap();
    assert_eq!(fs::read(&t, f, 0, 100).unwrap(), b"hELlo".to_vec());
    assert_eq!(fs::write(&mut t, ROOT_INO, 0, b"x", at(5)), Err(FsError::NotFound));
    assert_eq!(fs::write(&mut t, f, u64::MAX, b"xy", at(5)), Err(FsError::InvalidArgument));
}

#[test]
fn truncate_to_current_size_keeps_content() {
    let mut t = fresh();
    let f = fs::create(&mut t, ROOT_INO, "f", 0o644, at(2)).unwrap().ino;
    fs::write(&mut t, f, 0, b"hello", at(3)).unwrap();
    fs::setattr(&mut t, f, None, Some(5), None, None, at(4)).unwrap();
    assert_eq!(fs::read(&t, f, 0, 100).unwrap(), b"hello".to_vec());
}

#[test]
fn truncate_down_then_up_zero_fills() {
    let mut t = fresh();
    let f = fs::create(&mut t, ROOT_INO, "f", 0o644, at(2)).unwrap().ino;
    fs::write(&mut t, f, 0, b"hello", at(3)).unwrap();
    fs::setattr(&mut t, f, None, Some(2), None, None, at(4)).unwrap();
    let a = fs::setattr(&mut t, f, None, Some(5), None, None, at(5)).unwrap();
    assert_eq!(a.size, 5);
    assert_eq!(fs::read(&t, f, 0, 100).unwrap(), b"he\0\0\0".to_vec());
}

#[test]
fn setattr_mode_and_times() {
    let mut t = fresh();
    let f = fs::create(&mut t, ROOT_INO, "f", 0o100644, at(2)).unwrap();
    assert_eq!(f.perm, 0o644);
    let a = fs::setattr(&mut t, f.ino, Some(0o104711), None, Some(TimeOrNow::SpecificTime(at(50))), Some(TimeOrNow::Now), at(60)).unwrap();
    assert_eq!(a.perm, 0o4711);
    assert_eq!(a.atime, at(50));
    assert_eq!(a.mtime, at(60));
    assert_eq!(a.ctime, at(60));
    let s = fs::symlink(&mut t, ROOT_INO, "s", "f", at(2)).unwrap();
    let sa = fs::setattr(&mut t, s.ino, Some(0o600), Some(0), None, None, at(70)).unwrap();
    assert_eq!(sa.perm, 0o777);
    assert_eq!(sa.size, 1);
    assert_eq!(fs::setattr(&mut t, 999, Some(0o600), None, None, None, at(70)), Err(FsError::NotFound));
}

#[test]
fn create_mkdir_symlink_refuse_existing_names() {
    let mut t = fresh();
    fs::create(&mut t, ROOT_INO, "x", 0o644, at(2)).unwrap();
    assert_eq!(fs::create(&mut t, ROOT_INO, "x", 0o644, at(3)), Err(FsError::AlreadyExists));
    assert_eq!(fs::mkdir(&mut t, ROOT_INO, "x", 0o755, at(3)), Err(FsError::AlreadyExists));
    assert_eq!(fs::symlink(&mut t, ROOT_INO, "x", "y", at(3)), Err(FsError::AlreadyExists));
    assert_eq!(fs::create(&mut t, 42, "y", 0o644, at(3)), Err(FsError::NotFound));
}

#[test]
fn symlink_target_is_stored_verbatim() {
    let mut t = fresh();
    let s = fs::symlink(&mut t, ROOT_INO, "s", "../no/such", at(2)).unwrap();
    assert_eq!(s.kind, FileKind::Symlink);
    assert_eq!(fs::readlink(&t, s.ino).unwrap(), "../no/such");
    assert_eq!(fs::readlink(&t, ROOT_INO), Err(FsError::NotFound));
}

#[test]
fn unlink_and_rmdir_errors() {
    let mut t = fresh();
    let d = fs::mkdir(&mut t, ROOT_INO, "d", 0o755, at(2)).unwrap().ino;
    fs::create(&mut t, d, "f", 0o644, at(2)).unwrap();
    assert_eq!(fs::unlink(&mut t, ROOT_INO, "d", at(3)), Err(FsError::IsDirectory));
    assert_eq!(fs::unlink(&mut t, ROOT_INO, "nope", at(3)), Err(FsError::NotFound));
    assert_eq!(fs::rmdir(&mut t, d, "f", at(3)), Err(FsError::NotDirectory));
    assert_eq!(fs::rmdir(&mut t, ROOT_INO, "nope", at(3)), Err(FsError::NotFound));
    assert_eq!(fs::rmdir(&mut t, ROOT_INO, "d", at(3)), Err(FsError::NotEmpty));
    assert_eq!(fs::unlink(&mut t, d, "f", at(4)), Ok(()));
    assert_eq!(fs::rmdir(&mut t, ROOT_INO, "d", at(5)), Ok(()));
    assert_eq!(fs::lookup(&t, ROOT_INO, "d"), Err(FsError::NotFound));
}

#[test]
fn rename_onto_existing_file_replaces_it() {
    let mut t = fresh();
    let a = fs::create(&mut t, ROOT_INO, "a", 0o644, at(2)).unwrap().ino;
    let b = fs::create(&mut t, ROOT_INO, "b", 0o644, at(2)).unwrap().ino;
    fs::rename(&mut t, ROOT_INO, "a", ROOT_INO, "b", at(3)).unwrap();
    assert_eq!(fs::lookup(&t, ROOT_INO, "b").unwrap().ino, a);
    assert_eq!(fs::lookup(&t, ROOT_INO, "a"), Err(FsError::NotFound));
    assert_eq!(fs::getattr(&t, b), Err(FsError::NotFound));
    assert_eq!(fs::readdir(&t, ROOT_INO, 0).unwrap().len(), 3);
}

#[test]
fn rename_dir_onto_nonempty_dir_changes_nothing() {
    let mut t = fresh();
    let x = fs::mkdir(&mut t, ROOT_INO, "x", 0o755, at(2)).unwrap().ino;
    let y = fs::mkdir(&mut t, ROOT_INO, "y", 0o755, at(2)).unwrap().ino;
    fs::create(&mut t, y, "inner", 0o644, at(2)).unwrap();
    assert_eq!(fs::rename(&mut t, ROOT_INO, "x", ROOT_INO, "y", at(3)), Err(FsError::NotEmpty));
    assert_eq!(fs::lookup(&t, ROOT_INO, "x").unwrap().ino, x);
    assert_eq!(fs::lookup(&t, ROOT_INO, "y").unwrap().ino, y);
    assert!(fs::lookup(&t, y, "inner").is_ok());
}

#[test]
fn rename_kind_mismatch_and_missing_source() {
    let mut t = fresh();
    fs::mkdir(&mut t, ROOT_INO, "d", 0o755, at(2)).unwrap();
    fs::create(&mut t, ROOT_INO, "f", 0o644, at(2)).unwrap();
    assert_eq!(fs::rename(&mut t, ROOT_INO, "f", ROOT_INO, "d", at(3)), Err(FsError::IsDirectory));
    assert_eq!(fs::rename(&mut t, ROOT_INO, "d", ROOT_INO, "f", at(3)), Err(FsError::NotDirectory));
    assert_eq!(fs::rename(&mut t, ROOT_INO, "zz", ROOT_INO, "f", at(3)), Err(FsError::NotFound));
}

#[test]
fn rename_dir_onto_empty_dir_and_onto_itself() {
    let mut t = fresh();
    let x = fs::mkdir(&mut t, ROOT_INO, "x", 0o755, at(2)).unwrap().ino;
    fs::mkdir(&mut t, ROOT_INO, "y", 0o755, at(2)).unwrap();
    assert_eq!(fs::rename(&mut t, ROOT_INO, "x", ROOT_INO, "y", at(3)), Ok(()));
    assert_eq!(fs::lookup(&t, ROOT_INO, "y").unwrap().ino, x);
    assert_eq!(fs::rename(&mut t, ROOT_INO, "y", ROOT_INO, "y", at(4)), Ok(()));
    assert_eq!(fs::lookup(&t, ROOT_INO, "y").unwrap().ino, x);
}

#[test]
fn open_access_and_statfs() {
    let mut t = fresh();
    let f = fs::create(&mut t, ROOT_INO, "f", 0o644, at(2)).unwrap().ino;
    assert_eq!(fs::open(&t, f), Ok(()));
    assert_eq!(fs::open(&t, ROOT_INO), Err(FsError::NotFound));
    assert_eq!(fs::opendir(&t, ROOT_INO), Ok(()));
    assert_eq!(fs::opendir(&t, f), Err(FsError::NotFound));
    assert_eq!(fs::access(&t, f), Ok(()));
    assert_eq!(fs::access(&t, 77), Err(FsError::NotFound));
    let s = fs::statfs();
    assert_eq!(s.blocks, 1 << 30);
    assert_eq!(s.bsize, 1024);
    assert_eq!(s.namelen, 255);
    assert_eq!(s.files, 1_000_000);
}

#[test]
fn nlink_counts_entries() {
    let mut t = fresh();
    let d = fs::mkdir(&mut t, ROOT_INO, "d", 0o755, at(2)).unwrap();
    assert_eq!(d.nlink, 2);
    fs::create(&mut t, d.ino, "a", 0o644, at(2)).unwrap();
    fs::mkdir(&mut t, d.ino, "b", 0o755, at(2)).unwrap();
    assert_eq!(fs::getattr(&t, d.ino).unwrap().nlink, 4);
}
