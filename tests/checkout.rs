use jit::index::{Index, Stat};
use jit::migration::{Action, ConflictType, Migration};
use jit::object::{oid_of, ObjectKind};
use jit::tree::{Entry, Tree};
use jit::tree_diff::{TreeDiff, TreeStore};
use jit::workspace::Workspace;

fn checkout_stat(size: u64, mtime: i64) -> Stat {
    Stat { ctime: 10, ctime_nsec: 0, mtime, mtime_nsec: 0, dev: 1, ino: 2, mode: 0o100644, uid: 0, gid: 0, size }
}

fn checkout_blob(data: &str) -> Vec<u8> {
    oid_of(ObjectKind::Blob, data.as_bytes())
}

fn commit_tree(files: &[(&str, &str)], store: &mut TreeStore) -> Vec<u8> {
    let entries: Vec<Entry> = files.iter().map(|(p, d)| Entry::new(p.as_bytes(), &checkout_blob(d), 0o100644)).collect();
    let root = Tree::build(&entries);
    for (oid, body) in root.traverse() {
        store.insert(oid, Tree::parse(&body).unwrap());
    }
    root.get_oid()
}

struct Setup {
    store: TreeStore,
    tree_a: Vec<u8>,
    tree_b: Vec<u8>,
    index: Index,
    ws: Workspace,
}

fn setup(one_txt_in_workspace: &str, size: u64) -> Setup {
    let mut store = TreeStore::new();
    let tree_a = commit_tree(&[("1.txt", "1"), ("outer/2.txt", "2"), ("outer/inner/3.txt", "3")], &mut store);
    let tree_b = commit_tree(&[("1.txt", "changed"), ("outer/2.txt", "2"), ("outer/inner/3.txt", "3")], &mut store);
    let mut index = Index::new();
    index.add(b"1.txt", &checkout_blob("changed"), &checkout_stat(7, 100));
    index.add(b"outer/2.txt", &checkout_blob("2"), &checkout_stat(1, 100));
    index.add(b"outer/inner/3.txt", &checkout_blob("3"), &checkout_stat(1, 100));
    let mut ws = Workspace::new(b"/repo");
    let mtime = if one_txt_in_workspace == "changed" { 100 } else { 200 };
    ws.add_item(b"1.txt", checkout_stat(size, mtime), false);
    ws.add_item(b"outer", checkout_stat(0, 100), true);
    ws.add_item(b"outer/2.txt", checkout_stat(1, 100), false);
    ws.add_item(b"outer/inner", checkout_stat(0, 100), true);
    ws.add_item(b"outer/inner/3.txt", checkout_stat(1, 100), false);
    Setup { store, tree_a, tree_b, index, ws }
}

#[test]
fn tree_diff_finds_the_changed_file() {
    let s = setup("changed", 7);
    let mut diff = TreeDiff::new();
    diff.compare_oids(&s.store, Some(&s.tree_b), Some(&s.tree_a), b"", 64).unwrap();
    assert_eq!(1, diff.changes.len());
    assert_eq!(b"1.txt".to_vec(), diff.changes[0].path);
    assert_eq!(checkout_blob("changed"), diff.changes[0].old.as_ref().unwrap().oid);
    assert_eq!(checkout_blob("1"), diff.changes[0].new.as_ref().unwrap().oid);
    let mut same = TreeDiff::new();
    same.compare_oids(&s.store, Some(&s.tree_a), Some(&s.tree_a), b"", 64).unwrap();
    assert_eq!(0, same.changes.len());
}

#[test]
fn tree_diff_reports_a_missing_tree() {
    let s = setup("changed", 7);
    let empty = TreeStore::new();
    let mut diff = TreeDiff::new();
    assert_eq!(Err(s.tree_b.clone()), diff.compare_oids(&empty, Some(&s.tree_b), Some(&s.tree_a), b"", 64));
}

#[test]
fn checkout_to_parent_plans_an_update() {
    let s = setup("changed", 7);
    let mut diff = TreeDiff::new();
    diff.compare_oids(&s.store, Some(&s.tree_b), Some(&s.tree_a), b"", 64).unwrap();
    let mut m = Migration::new(diff.changes);
    assert_eq!(Ok(()), m.plan_changes(&s.index, &s.ws, &vec![]));
    assert_eq!(1, m.update.len());
    assert_eq!(b"1.txt".to_vec(), m.update[0].0);
    assert_eq!(checkout_blob("1"), m.update[0].1.oid);
    assert!(m.create.is_empty() && m.delete.is_empty());
    let mut index = s.index;
    m.update_index(&mut index, &vec![(b"1.txt".to_vec(), checkout_stat(1, 300))]).unwrap();
    assert_eq!(checkout_blob("1"), index.entry_for_path(b"1.txt").unwrap().oid);
    assert_eq!(Action::Update, Action::Update);
}

#[test]
fn checkout_refuses_to_overwrite_local_changes() {
    let s = setup("conflict", 8);
    let mut diff = TreeDiff::new();
    diff.compare_oids(&s.store, Some(&s.tree_b), Some(&s.tree_a), b"", 64).unwrap();
    let mut m = Migration::new(diff.changes);
    assert_eq!(Err(()), m.plan_changes(&s.index, &s.ws, &vec![]));
    assert_eq!(1, m.stale_files.len());
    assert_eq!(b"1.txt".to_vec(), m.stale_files[0].0);
    assert!(m.untracked_overwritten.is_empty());
    assert_eq!(checkout_blob("changed"), s.index.entry_for_path(b"1.txt").unwrap().oid);
    assert_eq!(ConflictType::StaleFile, ConflictType::StaleFile);
}

#[test]
fn unchanged_contents_with_new_timestamps_do_not_conflict() {
    let s = setup("touched", 7);
    let mut diff = TreeDiff::new();
    diff.compare_oids(&s.store, Some(&s.tree_b), Some(&s.tree_a), b"", 64).unwrap();
    let mut m = Migration::new(diff.changes);
    let contents = vec![(b"1.txt".to_vec(), b"changed".to_vec())];
    assert_eq!(Ok(()), m.plan_changes(&s.index, &s.ws, &contents));
}

#[test]
fn untracked_file_in_the_way_conflicts() {
    let mut store = TreeStore::new();
    let tree_a = commit_tree(&[("a.txt", "a")], &mut store);
    let tree_b = commit_tree(&[("a.txt", "a"), ("new.txt", "n")], &mut store);
    let mut index = Index::new();
    index.add(b"a.txt", &checkout_blob("a"), &checkout_stat(1, 100));
    let mut ws = Workspace::new(b"/repo");
    ws.add_item(b"a.txt", checkout_stat(1, 100), false);
    ws.add_item(b"new.txt", checkout_stat(5, 100), false);
    let mut diff = TreeDiff::new();
    diff.compare_oids(&store, Some(&tree_a), Some(&tree_b), b"", 64).unwrap();
    let mut m = Migration::new(diff.changes);
    assert_eq!(Err(()), m.plan_changes(&index, &ws, &vec![]));
    assert_eq!(b"new.txt".to_vec(), m.untracked_overwritten[0].0);
}

#[test]
fn removing_a_nested_file_plans_directory_removal() {
    let mut store = TreeStore::new();
    let tree_a = commit_tree(&[("a.txt", "a"), ("d/e/f.txt", "f")], &mut store);
    let tree_b = commit_tree(&[("a.txt", "a")], &mut store);
    let mut index = Index::new();
    index.add(b"a.txt", &checkout_blob("a"), &checkout_stat(1, 100));
    index.add(b"d/e/f.txt", &checkout_blob("f"), &checkout_stat(1, 100));
    let mut ws = Workspace::new(b"/repo");
    ws.add_item(b"a.txt", checkout_stat(1, 100), false);
    ws.add_item(b"d", checkout_stat(0, 100), true);
    ws.add_item(b"d/e", checkout_stat(0, 100), true);
    ws.add_item(b"d/e/f.txt", checkout_stat(1, 100), false);
    let mut diff = TreeDiff::new();
    diff.compare_oids(&store, Some(&tree_a), Some(&tree_b), b"", 64).unwrap();
    let mut m = Migration::new(diff.changes);
    assert_eq!(Ok(()), m.plan_changes(&index, &ws, &vec![]));
    assert_eq!(vec![b"d/e/f.txt".to_vec()], m.delete);
    let rmdirs: Vec<Vec<u8>> = m.rmdirs.iter().map(|d| d.0.clone()).collect();
    assert_eq!(vec![b"d".to_vec(), b"d/e".to_vec()], rmdirs);
    let mut index = index;
    m.update_index(&mut index, &vec![]).unwrap();
    assert!(index.entry_for_path(b"d/e/f.txt").is_none());
}
