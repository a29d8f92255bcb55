use jit::commit::{Author, Commit};
use jit::hex::{decode_hex, encode_hex};
use jit::object::{content_of, oid_of, parse_frame, Blob, ObjectKind};
use jit::tree::{split_path, tree_body, Entry, Tree, TreeEntry, TREE_MODE};

fn hex(b: &[u8]) -> String {
    String::from_utf8(encode_hex(b)).unwrap()
}

fn raw(h: &str) -> Vec<u8> {
    decode_hex(h.as_bytes()).unwrap()
}

#[test]
fn blob_ids_match_the_reference_tool() {
    assert_eq!("e69de29bb2d1d6434b8b29ae775ad8c2e48c5391", hex(&Blob::new(b"").get_oid()));
    assert_eq!("ce013625030ba8dba906f756967f9e9ca394464a", hex(&Blob::new(b"hello\n").get_oid()));
}

#[test]
fn empty_tree_id_matches_the_reference_tool() {
    assert_eq!("4b825dc642cb6eb9a060e54bf8d69288fbee4904", hex(&Tree::new().get_oid()));
}

#[test]
fn object_ids_are_deterministic() {
    let a = oid_of(ObjectKind::Blob, b"same bytes");
    let b = oid_of(ObjectKind::Blob, b"same bytes");
    assert_eq!(a, b);
    assert_ne!(a, oid_of(ObjectKind::Tree, b"same bytes"));
}

#[test]
fn framing_and_parsing() {
    let framed = content_of(ObjectKind::Blob, b"hello\n");
    assert_eq!(b"blob 6\0hello\n".to_vec(), framed);
    let (kind, body) = parse_frame(&framed).unwrap();
    assert_eq!(ObjectKind::Blob, kind);
    assert_eq!(b"hello\n".to_vec(), body);
    let commit = content_of(ObjectKind::Commit, &vec![b'x'; 12]);
    assert_eq!(b"commit 12\0".to_vec(), commit[..10].to_vec());
    assert!(parse_frame(b"blob 7\0hello\n").is_none());
    assert!(parse_frame(b"bolb 6\0hello\n").is_none());
    assert!(parse_frame(b"blob 6hello\n").is_none());
    assert!(parse_frame(b"").is_none());
}

#[test]
fn hex_round_trip() {
    let bytes = vec![0u8, 1, 0xab, 0xff];
    assert_eq!(b"0001abff".to_vec(), encode_hex(&bytes));
    assert_eq!(Some(bytes), decode_hex(b"0001ABff"));
    assert_eq!(None, decode_hex(b"abc"));
    assert_eq!(None, decode_hex(b"zz"));
}

#[test]
fn tree_record_modes() {
    let oid = vec![0xaa; 20];
    assert_eq!(0o100755, Entry::new(b"x", &oid, 0o100744).mode());
    assert_eq!(0o100644, Entry::new(b"x", &oid, 0o100600).mode());
    assert_eq!(TREE_MODE, Entry::new(b"x", &oid, 0o40000).mode());
    let mut rec = b"100644 hello.txt\0".to_vec();
    rec.extend_from_slice(&oid);
    assert_eq!(rec, Entry::new(b"hello.txt", &oid, 0o100644).record());
}

#[test]
fn tree_body_round_trip() {
    let entries = vec![
        Entry::new(b"a.txt", &vec![1u8; 20], 0o100644),
        Entry::new(b"bin", &vec![2u8; 20], 0o100755),
        Entry::new(b"sub", &vec![3u8; 20], 0o40000),
    ];
    let body = tree_body(&entries);
    let tree = Tree::parse(&body).unwrap();
    assert_eq!(3, tree.entries.len());
    assert_eq!(b"sub".to_vec(), tree.entries[2].0);
    match &tree.entries[2].1 {
        TreeEntry::Entry(e) => assert_eq!(TREE_MODE, e.mode),
        TreeEntry::Tree(_) => panic!("parsed trees are flat"),
    }
    assert!(tree.entries[2].1.is_tree());
    assert_eq!(body, tree.to_bytes());
    // out of order names are refused
    let swapped = vec![
        Entry::new(b"b", &vec![1u8; 20], 0o100644),
        Entry::new(b"a", &vec![1u8; 20], 0o100644),
    ];
    assert!(Tree::parse(&tree_body(&swapped)).is_none());
    assert!(Tree::parse(b"100644 x\0short").is_none());
}

#[test]
fn build_nests_paths_and_lists_subtrees_first() {
    let blob = vec![5u8; 20];
    let entries = vec![
        Entry::new(b"1.txt", &blob, 0o100644),
        Entry::new(b"outer/2.txt", &blob, 0o100644),
        Entry::new(b"outer/inner/3.txt", &blob, 0o100644),
    ];
    let root = Tree::build(&entries);
    assert_eq!(2, root.entries.len());
    assert_eq!(b"1.txt".to_vec(), root.entries[0].0);
    assert_eq!(b"outer".to_vec(), root.entries[1].0);
    let stored = root.traverse();
    assert_eq!(3, stored.len());
    assert_eq!(root.get_oid(), stored[2].0);
    for (oid, body) in stored.iter() {
        assert_eq!(*oid, oid_of(ObjectKind::Tree, body));
    }
    let outer = Tree::parse(&stored[1].1).unwrap();
    assert_eq!(b"2.txt".to_vec(), outer.entries[0].0);
    assert_eq!(b"inner".to_vec(), outer.entries[1].0);
}

#[test]
fn split_path_components() {
    let parts = split_path(b"a/b/c.txt");
    assert_eq!(vec![b"a".to_vec(), b"b".to_vec(), b"c.txt".to_vec()], parts);
    assert_eq!(vec![b"x".to_vec()], split_path(b"x"));
}

#[test]
fn commit_round_trip() {
    let author = Author {
        name: b"A U Thor".to_vec(),
        email: b"author@example.com".to_vec(),
        time: b"1600000000 +0000".to_vec(),
    };
    let tree = b"4b825dc642cb6eb9a060e54bf8d69288fbee4904".to_vec();
    let parent = b"ce013625030ba8dba906f756967f9e9ca394464a".to_vec();
    let c = Commit::new(Some(parent.clone()), tree.clone(), &author, b"first\n\nbody\n".to_vec());
    let body = c.to_bytes();
    let expected = b"tree 4b825dc642cb6eb9a060e54bf8d69288fbee4904\nparent ce013625030ba8dba906f756967f9e9ca394464a\nauthor A U Thor <author@example.com> 1600000000 +0000\ncommitter A U Thor <author@example.com> 1600000000 +0000\n\nfirst\n\nbody\n";
    assert_eq!(expected.to_vec(), body);
    let back = Commit::parse(&body).unwrap();
    assert_eq!(Some(parent), back.parent);
    assert_eq!(tree, back.tree_oid);
    assert_eq!(b"first".to_vec(), back.title_line());
    let root = Commit::new(None, tree, &author, b"root".to_vec());
    let back = Commit::parse(&root.to_bytes()).unwrap();
    assert_eq!(None, back.parent);
    assert!(Commit::parse(b"tree abc\n").is_none());
}

#[test]
fn stored_objects_read_back() {
    let (oid, stored) = jit::object::stored_object(ObjectKind::Blob, b"hello\n");
    assert_eq!("ce013625030ba8dba906f756967f9e9ca394464a", hex(&oid));
    assert_ne!(b"blob 6\0hello\n".to_vec(), stored);
    let (kind, body) = jit::object::read_object(&stored).unwrap();
    assert_eq!(ObjectKind::Blob, kind);
    assert_eq!(b"hello\n".to_vec(), body);
    assert!(jit::object::read_object(b"not zlib").is_none());
    let (dir, file) = jit::object::object_path(b"ce013625030ba8dba906f756967f9e9ca394464a");
    assert_eq!(b"ce".to_vec(), dir);
    assert_eq!(38, file.len());
    assert_eq!(b"ce0136".to_vec(), jit::object::short_oid(b"ce013625030ba8dba906f756967f9e9ca394464a"));
    let _ = raw("00");
}
