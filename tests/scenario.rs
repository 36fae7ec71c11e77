use pyrofs::fs;
use pyrofs::{FileKind, FsError, InodeTable, Timestamp, ROOT_INO};

fn at(secs: u64) -> Timestamp {
    Timestamp { secs, nanos: 0 }
}

#[test]
fn mkdir_create_write_rename_rmdir() {
    let mut t = InodeTable::new(1000, 1000);
    t.init_root(at(1));
    let a = fs::mkdir(&mut t, ROOT_INO, "a", 0o755, at(2)).unwrap();
    let b = fs::create(&mut t, a.ino, "b.txt", 0o644, at(3)).unwrap();
    fs::write(&mut t, b.ino, 0, b"hi", at(4)).unwrap();
    let attr = fs::getattr(&t, b.ino).unwrap();
    assert_eq!(attr.size, 2);
    assert_eq!(attr.blocks, 1);
    assert_eq!(attr.kind, FileKind::File);
    assert_eq!(fs::write(&mut t, b.ino, 5, b"!!!", at(5)), Ok(3));
    assert_eq!(fs::getattr(&t, b.ino).unwrap().size, 8);
    let data = fs::read(&t, b.ino, 0, 100).unwrap();
    assert_eq!(&data[2..5], &[0, 0, 0]);
    assert_eq!(&data[5..8], b"!!!");
    fs::rename(&mut t, a.ino, "b.txt", a.ino, "c.txt", at(6)).unwrap();
    assert_eq!(fs::lookup(&t, a.ino, "b.txt"), Err(FsError::NotFound));
    assert_eq!(fs::lookup(&t, a.ino, "c.txt").unwrap().ino, b.ino);
    assert_eq!(fs::rmdir(&mut t, ROOT_INO, "a", at(7)), Err(FsError::NotEmpty));
    fs::unlink(&mut t, a.ino, "c.txt", at(8)).unwrap();
    assert_eq!(fs::rmdir(&mut t, ROOT_INO, "a", at(9)), Ok(()));
}
