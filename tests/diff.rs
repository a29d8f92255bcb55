use jit::diff::{lines, Diff, Edit, EditType, Hunk, Line, Myers};

fn side_a(edits: &[Edit]) -> Vec<Vec<u8>> {
    edits.iter().filter_map(|e| e.a_line.as_ref().map(|l| l.text.clone())).collect()
}

fn side_b(edits: &[Edit]) -> Vec<Vec<u8>> {
    edits.iter().filter_map(|e| e.b_line.as_ref().map(|l| l.text.clone())).collect()
}

fn texts(ls: &[Line]) -> Vec<Vec<u8>> {
    ls.iter().map(|l| l.text.clone()).collect()
}

#[test]
fn lines_are_numbered_from_one() {
    let ls = lines(b"a\nb\n");
    assert_eq!(3, ls.len());
    assert_eq!(1, ls[0].number);
    assert_eq!(b"b".to_vec(), ls[1].text);
    assert_eq!(Vec::<u8>::new(), ls[2].text);
}

#[test]
fn one_changed_line() {
    let edits = Diff::diff(b"a\nb\nc", b"a\nx\nc");
    assert_eq!(texts(&lines(b"a\nb\nc")), side_a(&edits));
    assert_eq!(texts(&lines(b"a\nx\nc")), side_b(&edits));
    assert_eq!(2, edits.iter().filter(|e| e.edit_type == EditType::Eql).count());
    assert_eq!(1, edits.iter().filter(|e| e.edit_type == EditType::Del).count());
    assert_eq!(1, edits.iter().filter(|e| e.edit_type == EditType::Ins).count());
    let hunks = Hunk::filter(&edits);
    assert_eq!(1, hunks.len());
    assert_eq!(b"@@ -1,3 +1,3 @@".to_vec(), hunks[0].header());
}

#[test]
fn identical_texts_give_no_hunks() {
    let edits = Diff::diff(b"same\ntext", b"same\ntext");
    assert!(edits.iter().all(|e| e.edit_type == EditType::Eql));
    assert!(Diff::diff_hunks(b"same\ntext", b"same\ntext").is_empty());
}

#[test]
fn insertions_and_deletions_only() {
    let m = Myers::new(lines(b""), lines(b"x\ny"));
    let edits = m.diff();
    assert_eq!(texts(&lines(b"")), side_a(&edits));
    assert_eq!(texts(&lines(b"x\ny")), side_b(&edits));
    let edits = Diff::diff(b"1\n2\n3\n4\n5\n6\n7\n8\n9\n10\n11\n12", b"1\n2\n3\n4\n5\n6\n7\n8\n9\n10\n11\n12\n13");
    let hunks = Hunk::filter(&edits);
    assert_eq!(1, hunks.len());
    assert_eq!(b"@@ -10,3 +10,4 @@".to_vec(), hunks[0].header());
    assert_eq!(b'+', EditType::Ins.marker());
}

#[test]
fn a_deletion_alone_makes_a_hunk() {
    let hunks = Diff::diff_hunks(b"a\nb\nc", b"a\nc");
    assert_eq!(1, hunks.len());
    assert_eq!(b"@@ -1,3 +1,2 @@".to_vec(), hunks[0].header());
    assert_eq!(1, hunks[0].edits.iter().filter(|e| e.edit_type == EditType::Del).count());
}
