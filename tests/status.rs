use jit::index::{Index, Stat};
use jit::object::{oid_of, ObjectKind};
use jit::status::{check_index_against_workspace, files_to_read, ChangeType, Status, WorkspaceCheck};
use jit::tree::Entry;
use jit::workspace::Workspace;

fn status_stat(size: u64, mtime: i64) -> Stat {
    Stat { ctime: 10, ctime_nsec: 0, mtime, mtime_nsec: 0, dev: 1, ino: 2, mode: 0o100644, uid: 0, gid: 0, size }
}

fn status_blob(data: &str) -> Vec<u8> {
    oid_of(ObjectKind::Blob, data.as_bytes())
}

fn keys<V>(v: &Vec<(Vec<u8>, V)>) -> Vec<String> {
    v.iter().map(|(k, _)| String::from_utf8(k.clone()).unwrap()).collect()
}

#[test]
fn empty_repository_has_no_status() {
    let mut index = Index::new();
    let ws = Workspace::new(b"/repo");
    let s = Status::initialize(&mut index, &ws, &vec![], &vec![]);
    assert!(s.untracked.is_empty() && s.workspace_changes.is_empty() && s.index_changes.is_empty());
}

#[test]
fn untracked_files_and_directories() {
    let mut index = Index::new();
    index.add(b"tracked/a.txt", &status_blob("a"), &status_stat(1, 1));
    let mut ws = Workspace::new(b"/repo");
    ws.add_item(b"tracked", status_stat(0, 1), true);
    ws.add_item(b"tracked/a.txt", status_stat(1, 1), false);
    ws.add_item(b"tracked/b.txt", status_stat(1, 1), false);
    ws.add_item(b"file.txt", status_stat(1, 1), false);
    ws.add_item(b"dir", status_stat(0, 1), true);
    ws.add_item(b"dir/inner", status_stat(0, 1), true);
    ws.add_item(b"dir/inner/x", status_stat(1, 1), false);
    ws.add_item(b"empty", status_stat(0, 1), true);
    let head = vec![Entry::new(b"tracked/a.txt", &status_blob("a"), 0o100644)];
    let s = Status::initialize(&mut index, &ws, &head, &vec![]);
    assert_eq!(vec!["dir", "file.txt", "tracked/b.txt"], keys(&s.untracked));
    assert!(s.untracked[0].1);
    assert!(!s.untracked[1].1);
    assert!(s.workspace_changes.is_empty());
    assert!(s.index_changes.is_empty());
}

#[test]
fn workspace_changes() {
    let mut index = Index::new();
    index.add(b"same.txt", &status_blob("s"), &status_stat(1, 1));
    index.add(b"grown.txt", &status_blob("g"), &status_stat(1, 1));
    index.add(b"gone.txt", &status_blob("x"), &status_stat(1, 1));
    index.add(b"edited.txt", &status_blob("e"), &status_stat(1, 1));
    index.add(b"touched.txt", &status_blob("t"), &status_stat(1, 1));
    let mut ws = Workspace::new(b"/repo");
    ws.add_item(b"same.txt", status_stat(1, 1), false);
    ws.add_item(b"grown.txt", status_stat(9, 1), false);
    ws.add_item(b"edited.txt", status_stat(1, 2), false);
    ws.add_item(b"touched.txt", status_stat(1, 3), false);
    let to_read = files_to_read(&index, &ws);
    assert_eq!(vec![b"edited.txt".to_vec(), b"touched.txt".to_vec()], to_read);
    let contents = vec![(b"edited.txt".to_vec(), b"E".to_vec()), (b"touched.txt".to_vec(), b"t".to_vec())];
    let head: Vec<Entry> = vec![];
    let s = Status::initialize(&mut index, &ws, &head, &contents);
    assert_eq!(vec!["edited.txt", "gone.txt", "grown.txt"], keys(&s.workspace_changes));
    assert_eq!(ChangeType::Modified, s.workspace_changes[0].1);
    assert_eq!(ChangeType::Deleted, s.workspace_changes[1].1);
    assert_eq!(ChangeType::Modified, s.workspace_changes[2].1);
    // the touched file was read, matched, and had its stat cache refreshed
    assert_eq!(3, index.entry_for_path(b"touched.txt").unwrap().mtime);
    assert_eq!(1, index.entry_for_path(b"edited.txt").unwrap().mtime);
    assert!(index.changed);
}

#[test]
fn matching_timestamps_need_no_read() {
    let mut index = Index::new();
    index.add(b"f", &status_blob("f"), &status_stat(1, 1));
    assert_eq!(WorkspaceCheck::Unchanged, check_index_against_workspace(&index.entries[0], Some(status_stat(1, 1))));
    assert_eq!(WorkspaceCheck::ReadContents, check_index_against_workspace(&index.entries[0], Some(status_stat(1, 2))));
    assert_eq!(WorkspaceCheck::Modified, check_index_against_workspace(&index.entries[0], Some(status_stat(2, 1))));
    assert_eq!(WorkspaceCheck::Deleted, check_index_against_workspace(&index.entries[0], None));
}

#[test]
fn index_changes_against_head() {
    let mut index = Index::new();
    index.add(b"added.txt", &status_blob("a"), &status_stat(1, 1));
    index.add(b"changed.txt", &status_blob("new"), &status_stat(3, 1));
    index.add(b"same.txt", &status_blob("s"), &status_stat(1, 1));
    index.add(b"mode.txt", &status_blob("m"), &Stat { mode: 0o100755, ..status_stat(1, 1) });
    let mut ws = Workspace::new(b"/repo");
    ws.add_item(b"added.txt", status_stat(1, 1), false);
    ws.add_item(b"changed.txt", status_stat(3, 1), false);
    ws.add_item(b"same.txt", status_stat(1, 1), false);
    ws.add_item(b"mode.txt", Stat { mode: 0o100755, ..status_stat(1, 1) }, false);
    let head = vec![
        Entry::new(b"changed.txt", &status_blob("old"), 0o100644),
        Entry::new(b"same.txt", &status_blob("s"), 0o100644),
        Entry::new(b"mode.txt", &status_blob("m"), 0o100644),
        Entry::new(b"removed.txt", &status_blob("r"), 0o100644),
    ];
    let s = Status::initialize(&mut index, &ws, &head, &vec![]);
    assert_eq!(vec!["added.txt", "changed.txt", "mode.txt", "removed.txt"], keys(&s.index_changes));
    assert_eq!(ChangeType::Added, s.index_changes[0].1);
    assert_eq!(ChangeType::Modified, s.index_changes[1].1);
    assert_eq!(ChangeType::Modified, s.index_changes[2].1);
    assert_eq!(ChangeType::Deleted, s.index_changes[3].1);
    assert!(s.workspace_changes.is_empty());
}

#[test]
fn duplicate_paths_are_detected() {
    let mut ws = Workspace::new(b"/repo");
    ws.add_item(b"a", status_stat(1, 1), false);
    assert!(jit::status::ws_paths_distinct(&ws));
    ws.add_item(b"a", status_stat(1, 1), false);
    assert!(!jit::status::ws_paths_distinct(&ws));
    let head = vec![Entry::new(b"x", &status_blob("x"), 0o100644), Entry::new(b"x", &status_blob("y"), 0o100644)];
    assert!(!jit::status::head_paths_distinct(&head));
}
