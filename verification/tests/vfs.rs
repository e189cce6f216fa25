use std::path::PathBuf;
use wasmer_kit::vfs::{
    DirEntry, FileType, FsError, IoErrorKind, Metadata, OpenOptions, ReadDir,
};

fn file_metadata() -> Metadata {
    Metadata {
        ft: FileType { dir: false, file: true, symlink: false },
        accessed: 10,
        created: 20,
        modified: 30,
        len: 40,
    }
}

#[test]
fn open_options_start_cleared() {
    let options = OpenOptions::new(());
    let conf = options.config();
    assert!(!conf.read() && !conf.write() && !conf.create_new());
    assert!(!conf.create() && !conf.append() && !conf.truncate());
}

#[test]
fn open_options_builder_sets_each_flag() {
    let mut options = OpenOptions::new(7u32);
    options.read(true).write(true).append(true);
    options.truncate(true).create(true).create_new(true);
    let conf = *options.config();
    assert!(conf.read() && conf.write() && conf.append());
    assert!(conf.truncate() && conf.create() && conf.create_new());
    options.write(false).truncate(false);
    let conf = options.config();
    assert!(conf.read() && !conf.write() && conf.append() && !conf.truncate());
    *options.opener_mut() += 1;
    assert_eq!(*options.opener_mut(), 8);
}

#[test]
fn io_error_kinds_map_to_fs_errors() {
    let table = [
        (IoErrorKind::AddrInUse, FsError::AddressInUse),
        (IoErrorKind::AddrNotAvailable, FsError::AddressNotAvailable),
        (IoErrorKind::AlreadyExists, FsError::AlreadyExists),
        (IoErrorKind::BrokenPipe, FsError::BrokenPipe),
        (IoErrorKind::ConnectionAborted, FsError::ConnectionAborted),
        (IoErrorKind::ConnectionRefused, FsError::ConnectionRefused),
        (IoErrorKind::ConnectionReset, FsError::ConnectionReset),
        (IoErrorKind::Interrupted, FsError::Interrupted),
        (IoErrorKind::InvalidData, FsError::InvalidData),
        (IoErrorKind::InvalidInput, FsError::InvalidInput),
        (IoErrorKind::NotConnected, FsError::NotConnected),
        (IoErrorKind::NotFound, FsError::EntityNotFound),
        (IoErrorKind::PermissionDenied, FsError::PermissionDenied),
        (IoErrorKind::TimedOut, FsError::TimedOut),
        (IoErrorKind::UnexpectedEof, FsError::UnexpectedEof),
        (IoErrorKind::WouldBlock, FsError::WouldBlock),
        (IoErrorKind::WriteZero, FsError::WriteZero),
        (IoErrorKind::Other, FsError::IOError),
        (IoErrorKind::Unlisted, FsError::UnknownError),
    ];
    for (kind, error) in table {
        assert_eq!(FsError::from_io_error_kind(kind), error);
    }
}

#[test]
fn metadata_accessors() {
    let m = file_metadata();
    assert!(m.is_file() && !m.is_dir());
    assert_eq!((m.accessed(), m.created(), m.modified()), (10, 20, 30));
    let ft = m.file_type();
    assert!(ft.is_file() && !ft.is_dir() && !ft.is_symlink());
    let link = FileType { dir: false, file: false, symlink: true };
    assert!(link.is_symlink());
}

#[test]
fn dir_entry_accessors() {
    let entry = DirEntry { path: PathBuf::from("/a/b"), metadata: Ok(file_metadata()) };
    assert_eq!(entry.path(), PathBuf::from("/a/b"));
    assert_eq!(entry.metadata().unwrap().len, 40);
    assert!(entry.file_type().unwrap().is_file());
    let broken = DirEntry { path: PathBuf::from("x"), metadata: Err(FsError::PermissionDenied) };
    assert_eq!(broken.metadata().unwrap_err(), FsError::PermissionDenied);
    assert_eq!(broken.file_type().unwrap_err(), FsError::PermissionDenied);
}

#[test]
fn read_dir_yields_entries_in_order_then_stops() {
    let entries = vec![
        DirEntry { path: PathBuf::from("one"), metadata: Ok(file_metadata()) },
        DirEntry { path: PathBuf::from("two"), metadata: Err(FsError::EntityNotFound) },
    ];
    let mut listing = ReadDir::new(entries);
    let first = listing.next().unwrap().unwrap();
    assert_eq!(first.path, PathBuf::from("one"));
    let second = listing.next().unwrap().unwrap();
    assert_eq!(second.path, PathBuf::from("two"));
    assert_eq!(second.metadata.unwrap_err(), FsError::EntityNotFound);
    assert!(listing.next().is_none());
    assert!(listing.next().is_none());
    assert!(ReadDir::new(vec![]).next().is_none());
}
