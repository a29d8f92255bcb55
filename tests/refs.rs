use jit::object::ObjectKind;
use jit::refs::{checkout_notices, is_valid_ref, read_oid_or_symref, BranchError, HeadState, Ref, Refs};
use jit::revision::{parse, ObjectInfo, Rev, RevError, Revision};

const A: &str = "1111111111111111111111111111111111111111";
const B: &str = "2222222222222222222222222222222222222222";
const C: &str = "2233333333333333333333333333333333333333";

fn repo() -> Refs {
    let mut refs = Refs::new();
    refs.load(b"HEAD".to_vec(), b"ref: refs/heads/master\n".to_vec());
    refs.load(b"refs/heads/master".to_vec(), format!("{}\n", B).into_bytes());
    refs
}

fn table() -> Vec<ObjectInfo> {
    vec![
        ObjectInfo { oid: A.as_bytes().to_vec(), kind: ObjectKind::Commit, parent: None },
        ObjectInfo { oid: B.as_bytes().to_vec(), kind: ObjectKind::Commit, parent: Some(A.as_bytes().to_vec()) },
        ObjectInfo { oid: C.as_bytes().to_vec(), kind: ObjectKind::Blob, parent: None },
    ]
}

fn ids() -> Vec<Vec<u8>> {
    vec![A.as_bytes().to_vec(), B.as_bytes().to_vec(), C.as_bytes().to_vec()]
}

fn resolve(expr: &str) -> Result<Vec<u8>, RevError> {
    Revision::new(expr.as_bytes()).unwrap().resolve(&repo(), &ids(), &table())
}

#[test]
fn reading_refs() {
    match read_oid_or_symref(b"ref: refs/heads/master\n") {
        Ref::SymRef { path } => assert_eq!(b"refs/heads/master".to_vec(), path),
        Ref::Ref { .. } => panic!("expected a symbolic ref"),
    }
    match read_oid_or_symref(b"  abc \n") {
        Ref::Ref { oid } => assert_eq!(b"abc".to_vec(), oid),
        Ref::SymRef { .. } => panic!("expected a direct ref"),
    }
    let refs = repo();
    assert_eq!(Some(B.as_bytes().to_vec()), refs.read_head());
    match refs.current_ref(b"HEAD") {
        Ref::SymRef { path } => assert_eq!(b"refs/heads/master".to_vec(), path),
        Ref::Ref { .. } => panic!(),
    }
    assert!(Ref::SymRef { path: b"HEAD".to_vec() }.is_head());
}

#[test]
fn branch_lifecycle() {
    let mut refs = repo();
    let (path, content) = refs.create_branch(b"topic", B.as_bytes()).unwrap();
    assert_eq!(b"refs/heads/topic".to_vec(), path);
    assert_eq!(format!("{}\n", B).into_bytes(), content);
    let names: Vec<Vec<u8>> = refs.list_branches().iter().map(|r| refs.ref_short_name(r)).collect();
    assert_eq!(vec![b"master".to_vec(), b"topic".to_vec()], names);
    assert_eq!(Err(BranchError::AlreadyExists), refs.create_branch(b"topic", B.as_bytes()));
    assert_eq!(Ok(B.as_bytes().to_vec()), refs.delete_branch(b"topic"));
    assert_eq!(1, refs.list_branches().len());
    assert_eq!(Err(BranchError::NotFound), refs.delete_branch(b"topic"));
}

#[test]
fn invalid_branch_names() {
    for bad in [".hidden", "a/.b", "a..b", "a/", "x.lock", "a@{b", "sp ace", "a*b", "a:b", "a?b", "a[b", "a\\b", "a^b", "a~b"] {
        assert!(!is_valid_ref(bad.as_bytes()), "{}", bad);
    }
    for good in ["master", "topic/one", "v1.2", "a-b_c"] {
        assert!(is_valid_ref(good.as_bytes()), "{}", good);
    }
    let mut refs = repo();
    assert_eq!(Err(BranchError::InvalidName), refs.create_branch(b"bad..name", A.as_bytes()));
}

#[test]
fn moving_head() {
    let mut refs = repo();
    let (path, _) = refs.update_head(A.as_bytes());
    assert_eq!(b"refs/heads/master".to_vec(), path);
    assert_eq!(Some(A.as_bytes().to_vec()), refs.read_head());
    let (path, content) = refs.set_head(b"master", B.as_bytes());
    assert_eq!(b"HEAD".to_vec(), path);
    assert_eq!(b"ref: refs/heads/master\n".to_vec(), content);
    let (_, content) = refs.set_head(b"nope", B.as_bytes());
    assert_eq!(format!("{}\n", B).into_bytes(), content);
    assert_eq!(Some(B.as_bytes().to_vec()), refs.read_head());
}

#[test]
fn parsing_revisions() {
    match parse(b"@").unwrap() {
        Rev::Ref { name } => assert_eq!(b"HEAD".to_vec(), name),
        _ => panic!(),
    }
    match parse(b"master^").unwrap() {
        Rev::Parent { rev } => assert!(matches!(*rev, Rev::Ref { .. })),
        _ => panic!(),
    }
    match parse(b"master~12").unwrap() {
        Rev::Ancestor { n, .. } => assert_eq!(12, n),
        _ => panic!(),
    }
    assert!(parse(b"^").is_none());
    assert!(parse(b"a..b").is_none());
    assert!(parse(b"a~99999999999").is_none());
}

#[test]
fn resolving_revisions() {
    assert_eq!(resolve("@").ok(), resolve("HEAD").ok());
    assert_eq!(Some(B.as_bytes().to_vec()), resolve("master").ok());
    assert_eq!(Some(A.as_bytes().to_vec()), resolve("@^").ok());
    assert_eq!(Some(A.as_bytes().to_vec()), resolve("master~1").ok());
    assert!(matches!(resolve("master~5"), Err(RevError::NotFound)));
    assert_eq!(Some(B.as_bytes().to_vec()), resolve("master~0").ok());
    assert_eq!(Some(A.as_bytes().to_vec()), resolve("1111").ok());
}

#[test]
fn resolution_failures() {
    match resolve("22") {
        Err(RevError::Ambiguous { candidates, .. }) => {
            assert_eq!(vec![B.as_bytes().to_vec(), C.as_bytes().to_vec()], candidates)
        }
        _ => panic!("expected an ambiguous id"),
    }
    match resolve("2233") {
        Err(RevError::NotCommit { kind, .. }) => assert_eq!(ObjectKind::Blob, kind),
        _ => panic!("expected a non-commit"),
    }
    assert!(matches!(resolve("nothing"), Err(RevError::NotFound)));
    assert!(matches!(resolve("@^^"), Err(RevError::NotFound)));
    let partial = vec![ObjectInfo { oid: B.as_bytes().to_vec(), kind: ObjectKind::Commit, parent: Some(A.as_bytes().to_vec()) }];
    let r = Revision::new(b"@^").unwrap().resolve(&repo(), &ids(), &partial);
    assert!(matches!(r, Err(RevError::Unloaded { .. })));
}

#[test]
fn resolution_messages() {
    let e = jit::revision::HintedError::not_commit(C.as_bytes(), ObjectKind::Blob);
    assert_eq!(format!("object {} is a blob, not a commit", C).into_bytes(), e.message);
    let line = jit::revision::candidate_hint(C.as_bytes(), ObjectKind::Blob, None);
    assert_eq!(b" 223333 blob".to_vec(), line);
    let e = jit::revision::HintedError::ambiguous(b"22", vec![line]);
    assert_eq!(b"short SHA1 22 is ambiguous".to_vec(), e.message);
    assert_eq!(b"The candidates are:".to_vec(), e.hint[0]);
    assert_eq!(b" 223333 blob".to_vec(), e.hint[1]);
}

#[test]
fn commit_hint_shows_date_and_title() {
    let author = jit::commit::Author {
        name: b"A".to_vec(),
        email: b"a@b".to_vec(),
        time: b"1600000000 +0000".to_vec(),
    };
    let c = jit::commit::Commit::new(None, b"4b825dc642cb6eb9a060e54bf8d69288fbee4904".to_vec(), &author, b"title\nbody".to_vec());
    let line = jit::revision::candidate_hint(B.as_bytes(), ObjectKind::Commit, Some(&c));
    assert_eq!(b" 222222 commit 2020-09-13 - title".to_vec(), line);
    let parsed = jit::commit::Author::parse(b"A U Thor <a@b.c> 1600000000 +0200").unwrap();
    assert_eq!(b"A U Thor".to_vec(), parsed.name);
    assert_eq!(b"a@b.c".to_vec(), parsed.email);
    assert_eq!(b"1600000000 +0200".to_vec(), parsed.time);
    assert!(jit::commit::Author::parse(b"no brackets here").is_none());
    assert_eq!(Some(b"2020-09-13".to_vec()), parsed.short_date());
}

#[test]
fn checkout_notices_follow_head_state() {
    let refs = repo();
    let on_master = refs.head_state();
    assert_eq!(HeadState::Branch { name: b"master".to_vec() }, on_master);
    let mut detached = Refs::new();
    detached.load(b"HEAD".to_vec(), format!("{}\n", A).into_bytes());
    assert_eq!(HeadState::Detached, detached.head_state());
    let n = checkout_notices(&on_master, &HeadState::Detached, true);
    assert!(n.detachment && n.head_now_at && !n.previous_position && !n.already_on);
    let n = checkout_notices(&HeadState::Detached, &on_master, true);
    assert!(n.previous_position && !n.detachment && !n.head_now_at && !n.already_on);
    let n = checkout_notices(&on_master, &HeadState::Branch { name: b"master".to_vec() }, false);
    assert!(n.already_on && !n.previous_position);
}

#[test]
fn ancestors_past_the_root_do_not_exist() {
    assert!(matches!(resolve("master~2"), Err(RevError::NotFound)));
    assert_eq!(Some(A.as_bytes().to_vec()), resolve("master~1").ok());
}
