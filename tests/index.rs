use jit::add::{add_command, AddError};
use jit::hex::encode_hex;
use jit::index::{Index, IndexError, Stat};
use jit::object::{oid_of, ObjectKind};
use jit::workspace::Workspace;

fn stat(mode: u32, size: u64) -> Stat {
    Stat {
        ctime: 1_600_000_000,
        ctime_nsec: 5,
        mtime: 1_600_000_001,
        mtime_nsec: 6,
        dev: 2049,
        ino: 77,
        mode,
        uid: 1000,
        gid: 1000,
        size,
    }
}

fn paths(index: &Index) -> Vec<String> {
    index
        .entries
        .iter()
        .map(|e| String::from_utf8(e.path.clone()).unwrap())
        .collect()
}

fn oid() -> Vec<u8> {
    (0..20u8).map(|i| i.wrapping_mul(37).wrapping_add(11)).collect()
}

#[test]
fn add_files_to_index() {
    let oid = oid();
    let st = stat(0o100644, 6);

    let mut index = Index::new();
    index.add(b"alice.txt", &oid, &st);
    assert_eq!(vec!["alice.txt"], paths(&index));

    // Replace file with directory
    let mut index = Index::new();
    index.add(b"alice.txt", &oid, &st);
    index.add(b"alice.txt/nested.txt", &oid, &st);
    index.add(b"bob.txt", &oid, &st);
    assert_eq!(vec!["alice.txt/nested.txt", "bob.txt"], paths(&index));

    // Replace directory with file
    let mut index = Index::new();
    index.add(b"alice.txt", &oid, &st);
    index.add(b"nested/bob.txt", &oid, &st);
    index.add(b"nested", &oid, &st);
    assert_eq!(vec!["alice.txt", "nested"], paths(&index));

    // Replace directory (with subdirectories) with file
    let mut index = Index::new();
    index.add(b"alice.txt", &oid, &st);
    index.add(b"nested/bob.txt", &oid, &st);
    index.add(b"nested/inner/claire.txt", &oid, &st);
    index.add(b"nested", &oid, &st);
    assert_eq!(vec!["alice.txt", "nested"], paths(&index));
}

#[test]
fn entries_are_kept_in_path_order() {
    let oid = oid();
    let st = stat(0o100644, 1);
    let mut index = Index::new();
    index.add(b"b.txt", &oid, &st);
    index.add(b"a-b", &oid, &st);
    index.add(b"a/x", &oid, &st);
    index.add(b"a.txt", &oid, &st);
    assert_eq!(vec!["a-b", "a.txt", "a/x", "b.txt"], paths(&index));
}

#[test]
fn adding_the_same_path_replaces_its_entry() {
    let mut index = Index::new();
    index.add(b"f", &oid(), &stat(0o100644, 1));
    let other: Vec<u8> = vec![9u8; 20];
    index.add(b"f", &other, &stat(0o100755, 2));
    assert_eq!(1, index.entries.len());
    assert_eq!(other, index.entries[0].oid);
    assert_eq!(0o100755, index.entries[0].mode);
    assert!(index.changed);
}

#[test]
fn executable_files_get_the_executable_mode() {
    let mut index = Index::new();
    index.add(b"hello.txt", &oid(), &stat(0o100744, 6));
    assert_eq!(0o100755, index.entries[0].mode);
    index.add(b"hello.txt", &oid(), &stat(0o100600, 6));
    assert_eq!(0o100644, index.entries[0].mode);
}

#[test]
fn hello_blob_is_staged_with_its_object_id() {
    let data = b"hello\n";
    let blob_oid = oid_of(ObjectKind::Blob, data);
    assert_eq!(
        "ce013625030ba8dba906f756967f9e9ca394464a",
        String::from_utf8(encode_hex(&blob_oid)).unwrap()
    );
    let mut index = Index::new();
    index.add(b"hello.txt", &blob_oid, &stat(0o100644, 6));
    assert_eq!(1, index.entries.len());
    assert_eq!(0o100644, index.entries[0].mode);
    assert_eq!(b"hello.txt".to_vec(), index.entries[0].path);
    assert_eq!(blob_oid, index.entries[0].oid);
}

#[test]
fn index_file_round_trip() {
    let mut index = Index::new();
    index.add(b"f1.txt", &oid(), &stat(0o100644, 6));
    index.add(b"dir/f2.txt", &vec![7u8; 20], &stat(0o100755, 123));
    index.add(b"a-very-long-name-to-need-more-padding.txt", &vec![1u8; 20], &stat(0o100644, 0));
    let bytes = index.serialize();
    assert_eq!(b"DIRC".to_vec(), bytes[0..4].to_vec());
    assert_eq!(vec![0, 0, 0, 2], bytes[4..8].to_vec());
    assert_eq!(vec![0, 0, 0, 3], bytes[8..12].to_vec());
    assert_eq!(0, (bytes.len() - 12 - 20) % 8);
    let back = Index::load(&bytes).ok().unwrap();
    assert_eq!(index.entries.len(), back.entries.len());
    for (a, b) in index.entries.iter().zip(back.entries.iter()) {
        assert_eq!(a.path, b.path);
        assert_eq!(a.oid, b.oid);
        assert_eq!(a.mode, b.mode);
        assert_eq!(a.ctime, b.ctime);
        assert_eq!(a.mtime_nsec, b.mtime_nsec);
        assert_eq!(a.size, b.size);
        assert_eq!(a.flags, b.flags);
    }
    assert!(!back.changed);
    assert_eq!(bytes, back.serialize());
}

#[test]
fn empty_index_file() {
    let bytes = Index::new().serialize();
    assert_eq!(32, bytes.len());
    let back = Index::load(&bytes).ok().unwrap();
    assert_eq!(0, back.entries.len());
}

#[test]
fn corrupted_checksum_is_refused() {
    let mut index = Index::new();
    index.add(b"f", &oid(), &stat(0o100644, 1));
    let mut bytes = index.serialize();
    let last = bytes.len() - 1;
    bytes[last] ^= 1;
    assert_eq!(Some(IndexError::ChecksumMismatch), Index::load(&bytes).err());
}

#[test]
fn bad_headers_are_refused() {
    assert_eq!(Some(IndexError::TooShort), Index::load(b"DIRC").err());
    let mut bytes = Index::new().serialize();
    bytes[0] = b'X';
    assert_eq!(Some(IndexError::BadSignature), Index::load(&bytes).err());
    let mut bytes = Index::new().serialize();
    bytes[7] = 3;
    assert_eq!(Some(IndexError::BadVersion), Index::load(&bytes).err());
}

#[test]
fn tracked_paths_include_parent_directories() {
    let mut index = Index::new();
    index.add(b"a/b/c.txt", &oid(), &stat(0o100644, 1));
    assert!(index.is_tracked(b"a"));
    assert!(index.is_tracked(b"a/b"));
    assert!(index.is_tracked(b"a/b/c.txt"));
    assert!(!index.is_tracked(b"a/b/c"));
    assert!(!index.is_tracked_path(b"a/b"));
    assert!(index.entry_for_path(b"a/b/c.txt").is_some());
    assert!(index.entry_for_path(b"a").is_none());
}

#[test]
fn stat_refresh_keeps_path_and_oid() {
    let mut index = Index::new();
    index.add(b"f", &oid(), &stat(0o100644, 1));
    let mut newer = stat(0o100644, 1);
    newer.mtime = 1_700_000_000;
    index.update_entry_stat(b"f", &newer);
    assert_eq!(1_700_000_000, index.entries[0].mtime);
    assert_eq!(oid(), index.entries[0].oid);
    assert!(index.entries[0].times_match(&newer));
    assert!(index.entries[0].stat_match(&newer));
}

#[test]
fn stat_match_allows_unknown_size() {
    let mut index = Index::new();
    index.add(b"f", &oid(), &stat(0o100644, 0));
    assert!(index.entries[0].stat_match(&stat(0o100644, 99)));
    assert!(!index.entries[0].stat_match(&stat(0o100755, 0)));
}

#[test]
fn remove_drops_the_entry() {
    let mut index = Index::new();
    index.add(b"a", &oid(), &stat(0o100644, 0));
    index.add(b"b", &oid(), &stat(0o100644, 0));
    index.remove(b"a");
    assert_eq!(vec!["b"], paths(&index));
}

#[test]
fn add_a_directory_records_only_files() {
    let mut ws = Workspace::new(b"/repo");
    ws.add_item(b"a", stat(0o40755, 0), true);
    ws.add_item(b"a/b", stat(0o40755, 0), true);
    ws.add_item(b"a/b/c", stat(0o40755, 0), true);
    ws.add_item(b"a/b/c/hello.txt", stat(0o100644, 5), false);
    let contents = vec![(b"a/b/c/hello.txt".to_vec(), b"hello".to_vec())];
    let mut index = Index::new();
    let blobs = add_command(&mut index, &ws, false, &vec![b".".to_vec()], &contents).ok().unwrap();
    assert_eq!(vec!["a/b/c/hello.txt"], paths(&index));
    assert_eq!(0o100644, index.entries[0].mode);
    assert_eq!(1, blobs.len());
    assert_eq!(b"blob 5\0hello".to_vec(), blobs[0].1);
}

#[test]
fn add_fails_for_non_existent_files() {
    let ws = Workspace::new(b"/repo");
    let mut index = Index::new();
    let r = add_command(&mut index, &ws, false, &vec![b"hello.txt".to_vec()], &vec![]);
    assert!(r.is_err());
    assert_eq!(
        Some(AddError::PathspecMiss { pathspec: b"hello.txt".to_vec() }),
        r.err()
    );
    assert_eq!(0, index.entries.len());
}

#[test]
fn add_fails_if_index_is_locked() {
    let mut ws = Workspace::new(b"/repo");
    ws.add_item(b"hello.txt", stat(0o100644, 5), false);
    let contents = vec![(b"hello.txt".to_vec(), b"hello".to_vec())];
    let mut index = Index::new();
    let r = add_command(&mut index, &ws, true, &vec![b"hello.txt".to_vec()], &contents);
    assert!(r.is_err());
    assert_eq!(Some(AddError::LockHeld), r.err());
}

#[test]
fn add_fails_for_unreadable_files() {
    let mut ws = Workspace::new(b"/repo");
    ws.add_item(b"hello.txt", stat(0o100644, 5), false);
    let mut index = Index::new();
    let r = add_command(&mut index, &ws, false, &vec![b"hello.txt".to_vec()], &vec![]);
    assert_eq!(Some(AddError::ReadDenied { path: b"hello.txt".to_vec() }), r.err());
    assert_eq!(0, index.entries.len());
}
