use vstd::prelude::*;

use crate::codec::{compare_bytes, copy_bytes, push_all};
use crate::tree::{tree_mode, Entry, Tree, TreeEntry, TREE_MODE};

verus! {

/// Trees loaded from the object store, by object id.
pub struct TreeStore {
    pub trees: Vec<(Vec<u8>, Tree)>,
}

impl TreeStore {
    /// No trees loaded.
    pub fn new() -> (r: TreeStore)
        ensures
            r.trees@.len() == 0,
    {
        TreeStore { trees: Vec::new() }
    }

    /// Adds the tree with object id `oid`.
    pub fn insert(&mut self, oid: Vec<u8>, tree: Tree)
        ensures
            final(self).trees@ == old(self).trees@.push((oid, tree)),
    {
        self.trees.push((oid, tree));
    }

    /// The loaded tree with object id `oid`, if any (the first loaded, if several).
    pub fn lookup(&self, oid: &[u8]) -> (r: Option<&Tree>)
        ensures
            match r {
                Some(t) => store_tree(self.trees@, oid@) == Some(*t),
                None => store_tree(self.trees@, oid@) is None,
            },
    {
        let mut i: usize = 0;
        while i < self.trees.len()
            invariant
                i <= self.trees@.len(),
                forall|k: int| 0 <= k < i ==> (#[trigger] self.trees@[k]).0@ != oid@,
            decreases self.trees@.len() - i,
        {
            if compare_bytes(&self.trees[i].0, oid) == 0 {
                proof {
                    let c = first_tree_index(self.trees@, oid@);
                    if c < i {
                        assert(self.trees@[c].0@ != oid@);
                    }
                    if i < c {
                        assert(self.trees@[i as int].0@ == oid@);
                    }
                }
                return Some(&self.trees[i].1);
            }
            i += 1;
        }
        None
    }
}

/// The position of the first tree loaded with object id `oid`.
pub open spec fn first_tree_index(trees: Seq<(Vec<u8>, Tree)>, oid: Seq<u8>) -> int {
    choose|i: int| 0 <= i < trees.len() && (#[trigger] trees[i]).0@ == oid && forall|j: int| 0 <= j < i ==> (#[trigger] trees[j]).0@ != oid
}

/// The first tree loaded with object id `oid`, if any.
pub open spec fn store_tree(trees: Seq<(Vec<u8>, Tree)>, oid: Seq<u8>) -> Option<Tree> {
    if exists|i: int| 0 <= i < trees.len() && (#[trigger] trees[i]).0@ == oid {
        Some(trees[first_tree_index(trees, oid)].1)
    } else {
        None
    }
}

/// A file that differs between two trees: its path, and its entry on each side (absent on the
/// side that lacks it).
#[derive(Debug)]
pub struct Change {
    pub path: Vec<u8>,
    pub old: Option<Entry>,
    pub new: Option<Entry>,
}

/// A recorded change is a file change: at least one side, and no side a subtree.
pub open spec fn file_change(c: Change) -> bool {
    &&& (c.old is Some || c.new is Some)
    &&& (c.old is Some ==> tree_mode(c.old->0.mode) != TREE_MODE)
    &&& (c.new is Some ==> tree_mode(c.new->0.mode) != TREE_MODE)
}

/// Whether `path` lies under `prefix` (everything lies under the empty prefix).
pub open spec fn under(prefix: Seq<u8>, path: Seq<u8>) -> bool {
    prefix.len() == 0 || crate::index::is_parent_dir(prefix, path)
}

/// The changes between two trees.
pub struct TreeDiff {
    pub changes: Vec<Change>,
}

/// The record of a named tree item; a subtree is recorded with its object id.
pub open spec fn item_view(name: Seq<u8>, item: TreeEntry) -> crate::tree::EntryView {
    match item {
        TreeEntry::Entry(e) => crate::tree::EntryView { name, oid: e.oid@, mode: e.mode },
        TreeEntry::Tree(t) => crate::tree::EntryView { name, oid: crate::tree::tree_oid(t), mode: TREE_MODE },
    }
}

/// Whether `t` has an item called `name`.
pub open spec fn named_in(t: Tree, name: Seq<u8>) -> bool {
    exists|j: int| 0 <= j < t.entries@.len() && (#[trigger] t.entries@[j]).0@ == name
}

/// Whether the tree `oid` and every subtree below it, down to `depth` levels, are loaded.
pub open spec fn loaded(trees: Seq<(Vec<u8>, Tree)>, oid: Seq<u8>, depth: nat) -> bool
    decreases depth,
{
    depth > 0 && match store_tree(trees, oid) {
        Some(t) => forall|i: int|
            0 <= i < t.entries@.len() && tree_mode(item_view((#[trigger] t.entries@[i]).0@, t.entries@[i].1).mode) == TREE_MODE
                ==> loaded(trees, item_view(t.entries@[i].0@, t.entries@[i].1).oid, (depth - 1) as nat),
        None => false,
    }
}

/// Whether every subtree item of `t` is loaded down to `depth - 1` levels.
pub open spec fn items_loaded(trees: Seq<(Vec<u8>, Tree)>, t: Tree, depth: nat) -> bool {
    forall|i: int|
        0 <= i < t.entries@.len() && tree_mode(item_view((#[trigger] t.entries@[i]).0@, t.entries@[i].1).mode) == TREE_MODE
            ==> loaded(trees, item_view(t.entries@[i].0@, t.entries@[i].1).oid, (depth - 1) as nat)
}

/// Whether side `x` (an absent side is an empty tree) is loaded down to `depth` levels.
pub open spec fn side_loaded(trees: Seq<(Vec<u8>, Tree)>, x: Option<Seq<u8>>, depth: nat) -> bool {
    match x {
        Some(o) => loaded(trees, o, depth),
        None => true,
    }
}

/// The position of the first item of `t` called `name`.
pub open spec fn first_index(t: Tree, name: Seq<u8>) -> int {
    choose|j: int| 0 <= j < t.entries@.len() && (#[trigger] t.entries@[j]).0@ == name && forall|i: int| 0 <= i < j ==> (#[trigger] t.entries@[i]).0@ != name
}

/// The record of the first item of `t` called `name`, if any.
pub open spec fn first_view(t: Tree, name: Seq<u8>) -> Option<crate::tree::EntryView> {
    if named_in(t, name) {
        Some(item_view(t.entries@[first_index(t, name)].0@, t.entries@[first_index(t, name)].1))
    } else {
        None
    }
}

/// Whether a record is a file rather than a subtree.
pub open spec fn is_file(e: crate::tree::EntryView) -> bool {
    tree_mode(e.mode) != TREE_MODE
}

/// What the comparison of an item `ra` with its counterpart `ob` records, if anything: the
/// file sides of a pair that differ, when at least one side is a file.
pub open spec fn expected_change(ra: crate::tree::EntryView, ob: Option<crate::tree::EntryView>) -> Option<(Option<crate::tree::EntryView>, Option<crate::tree::EntryView>)> {
    let same = ob is Some && ob->0.mode == ra.mode && ob->0.oid == ra.oid;
    let b_file = ob is Some && is_file(ob->0);
    if same || !(is_file(ra) || b_file) {
        None
    } else {
        Some((if is_file(ra) { Some(ra) } else { None }, if b_file { ob } else { None }))
    }
}

/// The old side that the comparison of `ra` with `ob` records.
pub open spec fn expected_old(ra: crate::tree::EntryView, ob: Option<crate::tree::EntryView>) -> Option<crate::tree::EntryView> {
    match expected_change(ra, ob) {
        Some(p) => p.0,
        None => None,
    }
}

/// The new side that the comparison of `ra` with `ob` records.
pub open spec fn expected_new(ra: crate::tree::EntryView, ob: Option<crate::tree::EntryView>) -> Option<crate::tree::EntryView> {
    match expected_change(ra, ob) {
        Some(p) => p.1,
        None => None,
    }
}

/// The counterpart of `name` on side `x`, as loaded in `trees`.
pub open spec fn side_first(trees: Seq<(Vec<u8>, Tree)>, x: Option<Seq<u8>>, name: Seq<u8>) -> Option<crate::tree::EntryView> {
    match x {
        Some(o) => match store_tree(trees, o) {
            Some(t) => first_view(t, name),
            None => None,
        },
        None => None,
    }
}

/// The path of `name` under `prefix`.
pub open spec fn join_spec(prefix: Seq<u8>, name: Seq<u8>) -> Seq<u8> {
    if prefix.len() == 0 {
        name
    } else {
        prefix + seq![47u8] + name
    }
}

/// The record of an optional item.
pub open spec fn side_view(o: Option<Entry>) -> Option<crate::tree::EntryView> {
    match o {
        Some(e) => Some(e@),
        None => None,
    }
}

/// Whether `changes`, from position `from` on, records the change of `path` from `old` to `new`.
pub open spec fn recorded(
    changes: Seq<Change>,
    from: int,
    path: Seq<u8>,
    old: Option<crate::tree::EntryView>,
    new: Option<crate::tree::EntryView>,
) -> bool {
    exists|k: int|
        from <= k < changes.len() && (#[trigger] changes[k]).path@ == path && side_view(changes[k].old) == old
            && side_view(changes[k].new) == new
}

/// Whether the tree that side `x` names, as loaded in `trees`, has an item called `name`.
pub open spec fn side_has(trees: Seq<(Vec<u8>, Tree)>, x: Option<Seq<u8>>, name: Seq<u8>) -> bool {
    match x {
        Some(o) => match store_tree(trees, o) {
            Some(t) => named_in(t, name),
            None => false,
        },
        None => false,
    }
}

/// The optional id as bytes.
pub open spec fn side_id(x: Option<&Vec<u8>>) -> Option<Seq<u8>> {
    match x {
        Some(v) => Some(v@),
        None => None,
    }
}

/// The item of a tree as a recorded entry.
fn item_entry(name: &Vec<u8>, item: &TreeEntry) -> (r: Entry)
    ensures
        r@ == item_view(name@, *item),
        r.name@ == name@,
        match item {
            TreeEntry::Entry(e) => r.oid@ == e.oid@ && r.mode == e.mode,
            TreeEntry::Tree(t) => r.mode == TREE_MODE,
        },
{
    match item {
        TreeEntry::Entry(e) => Entry { name: copy_bytes(name), oid: copy_bytes(&e.oid), mode: e.mode },
        TreeEntry::Tree(t) => Entry { name: copy_bytes(name), oid: t.get_oid(), mode: TREE_MODE },
    }
}

/// The path of `name` under `prefix`.
pub fn join(prefix: &[u8], name: &[u8]) -> (r: Vec<u8>)
    ensures
        r@ == join_spec(prefix@, name@),
        prefix@.len() == 0 ==> r@ == name@,
        prefix@.len() > 0 ==> r@ == prefix@ + seq![47u8] + name@,
{
    let mut r = copy_bytes(prefix);
    if prefix.len() > 0 {
        r.push(47);
    }
    push_all(&mut r, name);
    r
}

/// Whether two entries are the same item: same mode and object id.
fn same_entry(a: &Entry, b: &Entry) -> (r: bool)
    ensures
        r == (a.mode == b.mode && a.oid@ == b.oid@),
{
    a.mode == b.mode && compare_bytes(&a.oid, &b.oid) == 0
}

/// The entry named `name` in `t`, if any.
fn find_named(t: &Tree, name: &[u8]) -> (r: Option<Entry>)
    ensures
        r is Some ==> r->0.name@ == name@,
        r is None <==> !named_in(*t, name@),
        side_view(r) == first_view(*t, name@),
{
    let mut i: usize = 0;
    while i < t.entries.len()
        invariant
            i <= t.entries@.len(),
            forall|j: int| 0 <= j < i ==> (#[trigger] t.entries@[j]).0@ != name@,
        decreases t.entries@.len() - i,
    {
        if compare_bytes(&t.entries[i].0, name) == 0 {
            proof {
                let c = first_index(*t, name@);
                if c < i {
                    assert(t.entries@[c].0@ != name@);
                }
                if i < c {
                    assert(t.entries@[i as int].0@ == name@);
                }
            }
            return Some(item_entry(&t.entries[i].0, &t.entries[i].1));
        }
        i += 1;
    }
    None
}

impl TreeDiff {
    /// No changes yet.
    pub fn new() -> (r: TreeDiff)
        ensures
            r.changes@.len() == 0,
    {
        TreeDiff { changes: Vec::new() }
    }

    /// Records the file changes between the trees `a` and `b` (an absent side counts as an
    /// empty tree), under `prefix`, descending at most `depth` levels. Fails with the id of a
    /// tree that the store lacks; the caller loads it and compares again from a fresh diff.
    #[verifier::spinoff_prover]
    #[verifier::rlimit(100)]
    pub fn compare_oids(
        &mut self,
        store: &TreeStore,
        a: Option<&Vec<u8>>,
        b: Option<&Vec<u8>>,
        prefix: &[u8],
        depth: usize,
    ) -> (r: Result<(), Vec<u8>>)
        requires
            forall|i: int| 0 <= i < old(self).changes@.len() ==> file_change(#[trigger] old(self).changes@[i]),
        ensures
            forall|i: int| 0 <= i < final(self).changes@.len() ==> file_change(#[trigger] final(self).changes@[i]),
            final(self).changes@.len() >= old(self).changes@.len(),
            forall|i: int| 0 <= i < old(self).changes@.len() ==> final(self).changes@[i] == old(self).changes@[i],
            forall|i: int|
                old(self).changes@.len() <= i < final(self).changes@.len() ==> under(prefix@, (#[trigger] final(self).changes@[i]).path@),
            (match (a, b) {
                (Some(x), Some(y)) => x@ == y@,
                (None, None) => true,
                _ => false,
            }) ==> final(self).changes@ == old(self).changes@,
            side_loaded(store.trees@, side_id(a), depth as nat) && side_loaded(store.trees@, side_id(b), depth as nat) ==> r is Ok,
            r matches Err(o) ==> o@.len() == 0 || store_tree(store.trees@, o@) is None,
            r is Ok ==> changes_view(final(self).changes@) == changes_view(old(self).changes@) + diff_spec(
                store.trees@,
                side_id(a),
                side_id(b),
                prefix@,
                depth as nat,
            ),
            r is Ok && a is Some ==> match store_tree(store.trees@, a->0@) {
                Some(ta) => crate::tree::names_sorted(ta) ==> forall|i: int|
                    0 <= i < ta.entries@.len() && (#[trigger] expected_change(
                        item_view(ta.entries@[i].0@, ta.entries@[i].1),
                        side_first(store.trees@, side_id(b), ta.entries@[i].0@),
                    )) is Some ==> recorded(
                        final(self).changes@,
                        old(self).changes@.len() as int,
                        join_spec(prefix@, ta.entries@[i].0@),
                        expected_old(item_view(ta.entries@[i].0@, ta.entries@[i].1), side_first(store.trees@, side_id(b), ta.entries@[i].0@)),
                        expected_new(item_view(ta.entries@[i].0@, ta.entries@[i].1), side_first(store.trees@, side_id(b), ta.entries@[i].0@)),
                    ),
                None => true,
            },
            r is Ok && b is Some ==> match store_tree(store.trees@, b->0@) {
                Some(tb) => forall|i: int|
                    0 <= i < tb.entries@.len() && tree_mode(item_view((#[trigger] tb.entries@[i]).0@, tb.entries@[i].1).mode) != TREE_MODE
                        && !side_has(store.trees@, side_id(a), tb.entries@[i].0@) ==> recorded(
                        final(self).changes@,
                        old(self).changes@.len() as int,
                        join_spec(prefix@, tb.entries@[i].0@),
                        None,
                        Some(item_view(tb.entries@[i].0@, tb.entries@[i].1)),
                    ),
                None => true,
            },
        decreases depth, 2int,
    {
        let equal = match a {
            Some(x) => match b {
                Some(y) => compare_bytes(x, y) == 0,
                None => false,
            },
            None => b.is_none(),
        };
        assert(equal == (match (a, b) {
            (Some(x), Some(y)) => x@ == y@,
            (None, None) => true,
            _ => false,
        }));
        if equal {
            proof {
                assert(side_id(a) == side_id(b));
                assert(changes_view(self.changes@) =~= changes_view(self.changes@) + diff_spec(store.trees@, side_id(a), side_id(b), prefix@, depth as nat));
                if a is Some {
                    assert(b is Some && b->0@ == a->0@);
                    assert(side_id(b) == Some(a->0@));
                    match store_tree(store.trees@, a->0@) {
                        Some(ta) => {
                            if crate::tree::names_sorted(ta) {
                                assert forall|i: int|
                                    0 <= i < ta.entries@.len() implies (#[trigger] expected_change(
                                        item_view(ta.entries@[i].0@, ta.entries@[i].1),
                                        side_first(store.trees@, side_id(b), ta.entries@[i].0@),
                                    )) is None by {
                                    lemma_sorted_first(ta, i);
                                    assert(side_first(store.trees@, side_id(b), ta.entries@[i].0@) == first_view(ta, ta.entries@[i].0@));
                                }
                            }
                        },
                        None => {},
                    }
                }
            }
            return Ok(());
        }
        if depth == 0 {
            return Err(Vec::new());
        }
        let empty = Tree::new();
        let ta: &Tree = match a {
            Some(x) => match store.lookup(x) {
                Some(t) => t,
                None => return Err(copy_bytes(x)),
            },
            None => &empty,
        };
        let tb: &Tree = match b {
            Some(y) => match store.lookup(y) {
                Some(t) => t,
                None => return Err(copy_bytes(y)),
            },
            None => &empty,
        };
        proof {
            assert forall|n: Seq<u8>| side_has(store.trees@, side_id(b), n) == named_in(*tb, n) by {}
            assert forall|n: Seq<u8>| side_has(store.trees@, side_id(a), n) == named_in(*ta, n) by {}
            assert forall|n: Seq<u8>| side_first(store.trees@, side_id(b), n) == first_view(*tb, n) by {}
        }
        let ghost start = self.changes@;
        self.detect_deletions(store, ta, tb, prefix, depth)?;
        let ghost mid = self.changes@;
        self.detect_additions(store, ta, tb, prefix, depth)?;
        proof {
            assert(empty.entries@.len() == 0);
            let et = empty_tree();
            assert(et.entries@.len() == 0);
            let sa = side_tree(store.trees@, side_id(a));
            let sb = side_tree(store.trees@, side_id(b));
            if a is None {
                assert(sa == et);
                lemma_adds_empty(store.trees@, *ta, et, *tb, prefix@, depth as nat, tb.entries@.len() as int);
            } else {
                assert(sa == *ta);
            }
            if b is None {
                assert(sb == et);
                lemma_dels_empty(store.trees@, sa, *tb, et, prefix@, depth as nat, sa.entries@.len() as int);
            } else {
                assert(sb == *tb);
            }
            assert(side_id(a) != side_id(b));
            assert(diff_spec(store.trees@, side_id(a), side_id(b), prefix@, depth as nat) == dels_spec(store.trees@, sa, sb, prefix@, depth as nat, sa.entries@.len() as int)
                + adds_spec(store.trees@, sa, sb, prefix@, depth as nat, sb.entries@.len() as int));
            assert(dels_spec(store.trees@, sa, sb, prefix@, depth as nat, sa.entries@.len() as int) == dels_spec(store.trees@, *ta, *tb, prefix@, depth as nat, ta.entries@.len() as int));
            assert(adds_spec(store.trees@, sa, sb, prefix@, depth as nat, sb.entries@.len() as int) == adds_spec(store.trees@, *ta, *tb, prefix@, depth as nat, tb.entries@.len() as int));
            assert(changes_view(self.changes@) =~= changes_view(start) + diff_spec(store.trees@, side_id(a), side_id(b), prefix@, depth as nat));
        }
        proof {
            assert forall|i: int|
                0 <= i < ta.entries@.len() && (#[trigger] expected_change(
                    item_view(ta.entries@[i].0@, ta.entries@[i].1),
                    side_first(store.trees@, side_id(b), ta.entries@[i].0@),
                )) is Some implies recorded(
                    self.changes@,
                    start.len() as int,
                    join_spec(prefix@, ta.entries@[i].0@),
                    expected_old(item_view(ta.entries@[i].0@, ta.entries@[i].1), side_first(store.trees@, side_id(b), ta.entries@[i].0@)),
                    expected_new(item_view(ta.entries@[i].0@, ta.entries@[i].1), side_first(store.trees@, side_id(b), ta.entries@[i].0@)),
                ) by {
                let n = ta.entries@[i].0@;
                assert(side_first(store.trees@, side_id(b), n) == first_view(*tb, n));
                let ra = item_view(n, ta.entries@[i].1);
                let ob = first_view(*tb, n);
                assert(expected_change(ra, ob) is Some);
                let k = choose|k: int|
                    start.len() <= k < mid.len() && (#[trigger] mid[k]).path@ == join_spec(prefix@, n) && side_view(mid[k].old)
                        == expected_old(ra, ob) && side_view(mid[k].new) == expected_new(ra, ob);
                assert(self.changes@[k] == mid[k]);
            }
        }
        Ok(())
    }

    /// Records, for each item of `ta`, what differs from the item of the same name in `tb`:
    /// subtrees are compared recursively, and a file that `tb` lacks is recorded as deleted.
    #[verifier::spinoff_prover]
    #[verifier::rlimit(100)]
    fn detect_deletions(&mut self, store: &TreeStore, ta: &Tree, tb: &Tree, prefix: &[u8], depth: usize) -> (r: Result<(), Vec<u8>>)
        requires
            depth > 0,
            forall|i: int| 0 <= i < old(self).changes@.len() ==> file_change(#[trigger] old(self).changes@[i]),
        ensures
            items_loaded(store.trees@, *ta, depth as nat) && items_loaded(store.trees@, *tb, depth as nat) ==> r is Ok,
            r matches Err(o) ==> o@.len() == 0 || store_tree(store.trees@, o@) is None,
            forall|i: int| 0 <= i < final(self).changes@.len() ==> file_change(#[trigger] final(self).changes@[i]),
            final(self).changes@.len() >= old(self).changes@.len(),
            forall|i: int| 0 <= i < old(self).changes@.len() ==> final(self).changes@[i] == old(self).changes@[i],
            forall|i: int|
                old(self).changes@.len() <= i < final(self).changes@.len() ==> under(prefix@, (#[trigger] final(self).changes@[i]).path@),
            r is Ok ==> forall|i: int|
                0 <= i < ta.entries@.len() && (#[trigger] expected_change(
                    item_view(ta.entries@[i].0@, ta.entries@[i].1),
                    first_view(*tb, ta.entries@[i].0@),
                )) is Some ==> recorded(
                    final(self).changes@,
                    old(self).changes@.len() as int,
                    join_spec(prefix@, ta.entries@[i].0@),
                    expected_old(item_view(ta.entries@[i].0@, ta.entries@[i].1), first_view(*tb, ta.entries@[i].0@)),
                    expected_new(item_view(ta.entries@[i].0@, ta.entries@[i].1), first_view(*tb, ta.entries@[i].0@)),
                ),
            r is Ok ==> changes_view(final(self).changes@) == changes_view(old(self).changes@) + dels_spec(
                store.trees@,
                *ta,
                *tb,
                prefix@,
                depth as nat,
                ta.entries@.len() as int,
            ),
        decreases depth, 1int,
    {
        let ghost start = self.changes@;
        assert(changes_view(self.changes@) =~= changes_view(start) + dels_spec(store.trees@, *ta, *tb, prefix@, depth as nat, 0));
        let mut i: usize = 0;
        while i < ta.entries.len()
            invariant
                i <= ta.entries@.len(),
                depth > 0,
                start == old(self).changes@,
                self.changes@.len() >= start.len(),
                forall|k: int| 0 <= k < start.len() ==> self.changes@[k] == start[k],
                forall|k: int| 0 <= k < self.changes@.len() ==> file_change(#[trigger] self.changes@[k]),
                forall|k: int| start.len() <= k < self.changes@.len() ==> under(prefix@, (#[trigger] self.changes@[k]).path@),
                forall|q: int|
                    0 <= q < i && (#[trigger] expected_change(
                        item_view(ta.entries@[q].0@, ta.entries@[q].1),
                        first_view(*tb, ta.entries@[q].0@),
                    )) is Some ==> recorded(
                        self.changes@,
                        start.len() as int,
                        join_spec(prefix@, ta.entries@[q].0@),
                        expected_old(item_view(ta.entries@[q].0@, ta.entries@[q].1), first_view(*tb, ta.entries@[q].0@)),
                        expected_new(item_view(ta.entries@[q].0@, ta.entries@[q].1), first_view(*tb, ta.entries@[q].0@)),
                    ),
                changes_view(self.changes@) == changes_view(start) + dels_spec(store.trees@, *ta, *tb, prefix@, depth as nat, i as int),
            decreases ta.entries@.len() - i,
        {
            let ghost before = self.changes@;
            let res = self.compare_item(store, ta, tb, i, prefix, depth);
            match res {
                Err(m) => {
                    return Err(m);
                },
                Ok(()) => {},
            }
            proof {
                assert(dels_spec(store.trees@, *ta, *tb, prefix@, depth as nat, i + 1) == dels_spec(store.trees@, *ta, *tb, prefix@, depth as nat, i as int)
                    + item_del(store.trees@, *ta, *tb, prefix@, depth as nat, i as int));
                assert(changes_view(self.changes@) =~= changes_view(start) + dels_spec(store.trees@, *ta, *tb, prefix@, depth as nat, i + 1));
            }
            proof {
                assert forall|k: int| start.len() <= k < self.changes@.len() implies under(prefix@, (#[trigger] self.changes@[k]).path@) by {
                    if k < before.len() {
                        assert(self.changes@[k] == before[k]);
                    }
                }
                assert forall|q: int|
                    0 <= q < i + 1 && (#[trigger] expected_change(
                        item_view(ta.entries@[q].0@, ta.entries@[q].1),
                        first_view(*tb, ta.entries@[q].0@),
                    )) is Some implies recorded(
                        self.changes@,
                        start.len() as int,
                        join_spec(prefix@, ta.entries@[q].0@),
                        expected_old(item_view(ta.entries@[q].0@, ta.entries@[q].1), first_view(*tb, ta.entries@[q].0@)),
                        expected_new(item_view(ta.entries@[q].0@, ta.entries@[q].1), first_view(*tb, ta.entries@[q].0@)),
                    ) by {
                    let ec = (expected_old(item_view(ta.entries@[q].0@, ta.entries@[q].1), first_view(*tb, ta.entries@[q].0@)), expected_new(item_view(ta.entries@[q].0@, ta.entries@[q].1), first_view(*tb, ta.entries@[q].0@)));
                    if q < i {
                        let k = choose|k: int|
                            start.len() <= k < before.len() && (#[trigger] before[k]).path@ == join_spec(prefix@, ta.entries@[q].0@)
                                && side_view(before[k].old) == ec.0 && side_view(before[k].new) == ec.1;
                        assert(self.changes@[k] == before[k]);
                    } else {
                        let k = choose|k: int|
                            before.len() <= k < self.changes@.len() && (#[trigger] self.changes@[k]).path@ == join_spec(prefix@, ta.entries@[q].0@)
                                && side_view(self.changes@[k].old) == ec.0 && side_view(self.changes@[k].new) == ec.1;
                    }
                }
            }
            i += 1;
        }
        Ok(())
    }

    /// Compares item `i` of `ta` with the first item of the same name in `tb`: subtrees are
    /// compared recursively, and the file sides of a pair that differs are recorded.
    #[verifier::spinoff_prover]
    #[verifier::rlimit(100)]
    fn compare_item(&mut self, store: &TreeStore, ta: &Tree, tb: &Tree, i: usize, prefix: &[u8], depth: usize) -> (r: Result<(), Vec<u8>>)
        requires
            depth > 0,
            i < ta.entries@.len(),
            forall|k: int| 0 <= k < old(self).changes@.len() ==> file_change(#[trigger] old(self).changes@[k]),
        ensures
            items_loaded(store.trees@, *ta, depth as nat) && items_loaded(store.trees@, *tb, depth as nat) ==> r is Ok,
            r matches Err(o) ==> o@.len() == 0 || store_tree(store.trees@, o@) is None,
            forall|k: int| 0 <= k < final(self).changes@.len() ==> file_change(#[trigger] final(self).changes@[k]),
            final(self).changes@.len() >= old(self).changes@.len(),
            forall|k: int| 0 <= k < old(self).changes@.len() ==> final(self).changes@[k] == old(self).changes@[k],
            forall|k: int|
                old(self).changes@.len() <= k < final(self).changes@.len() ==> under(prefix@, (#[trigger] final(self).changes@[k]).path@),
            r is Ok && expected_change(
                item_view(ta.entries@[i as int].0@, ta.entries@[i as int].1),
                first_view(*tb, ta.entries@[i as int].0@),
            ) is Some ==> recorded(
                final(self).changes@,
                old(self).changes@.len() as int,
                join_spec(prefix@, ta.entries@[i as int].0@),
                expected_old(item_view(ta.entries@[i as int].0@, ta.entries@[i as int].1), first_view(*tb, ta.entries@[i as int].0@)),
                expected_new(item_view(ta.entries@[i as int].0@, ta.entries@[i as int].1), first_view(*tb, ta.entries@[i as int].0@)),
            ),
            r is Ok ==> changes_view(final(self).changes@) == changes_view(old(self).changes@) + item_del(
                store.trees@,
                *ta,
                *tb,
                prefix@,
                depth as nat,
                i as int,
            ),
        decreases depth, 0int,
    {
        let ghost start = self.changes@;
        let entry = item_entry(&ta.entries[i].0, &ta.entries[i].1);
        let path = join(prefix, &entry.name);
        let other = find_named(tb, &entry.name);
        let skip = match &other {
            Some(o) => same_entry(o, &entry),
            None => false,
        };
        if !skip {
            let a_tree = entry.mode() == TREE_MODE;
            let (b_tree, b_file) = match &other {
                Some(o) => (o.mode() == TREE_MODE, o.mode() != TREE_MODE),
                None => (false, false),
            };
            let sub_a: Option<&Vec<u8>> = if a_tree { Some(&entry.oid) } else { None };
            let sub_b: Option<&Vec<u8>> = if b_tree {
                match &other {
                    Some(o) => Some(&o.oid),
                    None => None,
                }
            } else {
                None
            };
            proof {
                if items_loaded(store.trees@, *ta, depth as nat) && items_loaded(store.trees@, *tb, depth as nat) {
                    if a_tree {
                        assert(loaded(store.trees@, entry.oid@, (depth - 1) as nat));
                    }
                    if b_tree {
                        let j = choose|j: int| 0 <= j < tb.entries@.len() && (#[trigger] tb.entries@[j]).0@ == entry.name@;
                        lemma_first_exists(*tb, entry.name@, j);
                        let c = first_index(*tb, entry.name@);
                        assert(tb.entries@[c].0@ == entry.name@);
                    }
                }
            }
            let res = self.compare_oids(store, sub_a, sub_b, &path, depth - 1);
            proof {
                lemma_under_path(prefix@, entry.name@, path@);
                assert forall|k: int| start.len() <= k < self.changes@.len() implies under(prefix@, (#[trigger] self.changes@[k]).path@) by {
                    lemma_under_trans(prefix@, path@, self.changes@[k].path@);
                }
            }
            match res {
                Err(m) => {
                    return Err(m);
                },
                Ok(()) => {},
            }
            let ghost after_sub = self.changes@;
            proof {
                assert(side_id(sub_a) == (if !is_file(entry@) { Some(entry@.oid) } else { None::<Seq<u8>> }));
                assert(other is Some ==> side_view(other) == Some(other->0@));
                assert(side_id(sub_b) == (if first_view(*tb, entry@.name) is Some && !is_file(first_view(*tb, entry@.name)->0) {
                    Some(first_view(*tb, entry@.name)->0.oid)
                } else {
                    None::<Seq<u8>>
                }));
            }
            if !a_tree || b_file {
                let old_side = if !a_tree { Some(entry.duplicate()) } else { None };
                let new_side = if b_file {
                    match &other {
                        Some(o) => Some(o.duplicate()),
                        None => None,
                    }
                } else {
                    None
                };
                let ghost pre = self.changes@;
                self.changes.push(Change { path: copy_bytes(&path), old: old_side, new: new_side });
                proof {
                    assert forall|k: int| 0 <= k < self.changes@.len() implies file_change(#[trigger] self.changes@[k]) by {
                        if k < pre.len() {
                            assert(self.changes@[k] == pre[k]);
                        }
                    }
                    assert forall|k: int| start.len() <= k < self.changes@.len() implies under(prefix@, (#[trigger] self.changes@[k]).path@) by {
                        if k < pre.len() {
                            assert(self.changes@[k] == pre[k]);
                        }
                    }
                    let last = self.changes@.len() - 1;
                    assert(self.changes@[last].path@ == join_spec(prefix@, ta.entries@[i as int].0@));
                    assert(changes_view(self.changes@) =~= changes_view(after_sub).push(change_view(self.changes@[last])));
                }
            }
            proof {
                let ra = item_view(ta.entries@[i as int].0@, ta.entries@[i as int].1);
                assert(entry@ == ra);
                assert(changes_view(self.changes@) =~= changes_view(start) + item_del(store.trees@, *ta, *tb, prefix@, depth as nat, i as int));
            }
        } else {
            proof {
                assert(changes_view(self.changes@) =~= changes_view(start) + item_del(store.trees@, *ta, *tb, prefix@, depth as nat, i as int));
            }
        }
        Ok(())
    }

    /// Records each item of `tb` that `ta` lacks: a file as added, a subtree by comparing it
    /// with nothing.
    #[verifier::spinoff_prover]
    #[verifier::rlimit(100)]
    fn detect_additions(&mut self, store: &TreeStore, ta: &Tree, tb: &Tree, prefix: &[u8], depth: usize) -> (r: Result<(), Vec<u8>>)
        requires
            depth > 0,
            forall|i: int| 0 <= i < old(self).changes@.len() ==> file_change(#[trigger] old(self).changes@[i]),
        ensures
            items_loaded(store.trees@, *ta, depth as nat) && items_loaded(store.trees@, *tb, depth as nat) ==> r is Ok,
            r matches Err(o) ==> o@.len() == 0 || store_tree(store.trees@, o@) is None,
            forall|i: int| 0 <= i < final(self).changes@.len() ==> file_change(#[trigger] final(self).changes@[i]),
            final(self).changes@.len() >= old(self).changes@.len(),
            forall|i: int| 0 <= i < old(self).changes@.len() ==> final(self).changes@[i] == old(self).changes@[i],
            forall|i: int|
                old(self).changes@.len() <= i < final(self).changes@.len() ==> under(prefix@, (#[trigger] final(self).changes@[i]).path@),
            r is Ok ==> forall|i: int|
                0 <= i < tb.entries@.len() && tree_mode(item_view((#[trigger] tb.entries@[i]).0@, tb.entries@[i].1).mode) != TREE_MODE
                    && !named_in(*ta, tb.entries@[i].0@) ==> recorded(
                    final(self).changes@,
                    old(self).changes@.len() as int,
                    join_spec(prefix@, tb.entries@[i].0@),
                    None,
                    Some(item_view(tb.entries@[i].0@, tb.entries@[i].1)),
                ),
            r is Ok ==> changes_view(final(self).changes@) == changes_view(old(self).changes@) + adds_spec(
                store.trees@,
                *ta,
                *tb,
                prefix@,
                depth as nat,
                tb.entries@.len() as int,
            ),
        decreases depth, 1int,
    {
        let ghost start = self.changes@;
        assert(changes_view(self.changes@) =~= changes_view(start) + adds_spec(store.trees@, *ta, *tb, prefix@, depth as nat, 0));
        let mut j: usize = 0;
        while j < tb.entries.len()
            invariant
                j <= tb.entries@.len(),
                depth > 0,
                start == old(self).changes@,
                self.changes@.len() >= start.len(),
                forall|k: int| 0 <= k < start.len() ==> self.changes@[k] == start[k],
                forall|k: int| 0 <= k < self.changes@.len() ==> file_change(#[trigger] self.changes@[k]),
                forall|k: int| start.len() <= k < self.changes@.len() ==> under(prefix@, (#[trigger] self.changes@[k]).path@),
                forall|q: int|
                    0 <= q < j && tree_mode(item_view((#[trigger] tb.entries@[q]).0@, tb.entries@[q].1).mode) != TREE_MODE
                        && !named_in(*ta, tb.entries@[q].0@) ==> recorded(
                        self.changes@,
                        start.len() as int,
                        join_spec(prefix@, tb.entries@[q].0@),
                        None,
                        Some(item_view(tb.entries@[q].0@, tb.entries@[q].1)),
                    ),
                changes_view(self.changes@) == changes_view(start) + adds_spec(store.trees@, *ta, *tb, prefix@, depth as nat, j as int),
            decreases tb.entries@.len() - j,
        {
            let entry = item_entry(&tb.entries[j].0, &tb.entries[j].1);
            let other = find_named(ta, &entry.name);
            let ghost before = self.changes@;
            if other.is_none() {
                let path = join(prefix, &entry.name);
                proof {
                    lemma_under_path(prefix@, entry.name@, path@);
                }
                if entry.mode() == TREE_MODE {
                    let ghost mid = self.changes@;
                    let res = self.compare_oids(store, None, Some(&entry.oid), &path, depth - 1);
                    proof {
                        assert forall|k: int| start.len() <= k < self.changes@.len() implies under(prefix@, (#[trigger] self.changes@[k]).path@) by {
                            if k < mid.len() {
                                assert(self.changes@[k] == mid[k]);
                            } else {
                                lemma_under_trans(prefix@, path@, self.changes@[k].path@);
                            }
                        }
                    }
                    match res {
                        Err(m) => {
                            return Err(m);
                        },
                        Ok(()) => {},
                    }
                } else {
                    let ghost pre = self.changes@;
                    self.changes.push(Change { path, old: None, new: Some(entry) });
                    proof {
                        assert forall|k: int| 0 <= k < self.changes@.len() implies file_change(#[trigger] self.changes@[k]) by {
                            if k < pre.len() {
                                assert(self.changes@[k] == pre[k]);
                            }
                        }
                        assert forall|k: int| start.len() <= k < self.changes@.len() implies under(prefix@, (#[trigger] self.changes@[k]).path@) by {
                            if k < pre.len() {
                                assert(self.changes@[k] == pre[k]);
                            }
                        }
                    }
                }
            }
            proof {
                let rb = item_view(tb.entries@[j as int].0@, tb.entries@[j as int].1);
                assert(entry@ == rb);
                assert(adds_spec(store.trees@, *ta, *tb, prefix@, depth as nat, j + 1) == adds_spec(store.trees@, *ta, *tb, prefix@, depth as nat, j as int)
                    + item_add(store.trees@, *ta, *tb, prefix@, depth as nat, j as int));
                if other.is_none() && !is_file(rb) {
                    assert(side_id(Some(&entry.oid)) == Some(rb.oid));
                }
                if other.is_none() && is_file(rb) {
                    let last = self.changes@.len() - 1;
                    assert(changes_view(self.changes@) =~= changes_view(before).push(change_view(self.changes@[last])));
                }
                assert(changes_view(self.changes@) =~= changes_view(start) + adds_spec(store.trees@, *ta, *tb, prefix@, depth as nat, j + 1));
            }
            proof {
                let last = self.changes@.len() - 1;
                assert forall|q: int|
                    0 <= q < j + 1 && tree_mode(item_view((#[trigger] tb.entries@[q]).0@, tb.entries@[q].1).mode) != TREE_MODE
                        && !named_in(*ta, tb.entries@[q].0@) implies recorded(
                        self.changes@,
                        start.len() as int,
                        join_spec(prefix@, tb.entries@[q].0@),
                        None,
                        Some(item_view(tb.entries@[q].0@, tb.entries@[q].1)),
                    ) by {
                    if q < j {
                        let k = choose|k: int|
                            start.len() <= k < before.len() && (#[trigger] before[k]).path@ == join_spec(prefix@, tb.entries@[q].0@)
                                && side_view(before[k].old) == None::<crate::tree::EntryView>
                                && side_view(before[k].new) == Some(item_view(tb.entries@[q].0@, tb.entries@[q].1));
                        assert(self.changes@[k] == before[k]);
                    } else {
                        assert(self.changes@[last].path@ == join_spec(prefix@, tb.entries@[q].0@));
                    }
                }
            }
            j += 1;
        }
        Ok(())
    }
}

/// When some item is called `name`, a first one is.
pub proof fn lemma_first_exists(t: Tree, name: Seq<u8>, j: int)
    requires
        0 <= j < t.entries@.len(),
        t.entries@[j].0@ == name,
    ensures
        exists|c: int| 0 <= c < t.entries@.len() && (#[trigger] t.entries@[c]).0@ == name && forall|i: int| 0 <= i < c ==> (#[trigger] t.entries@[i]).0@ != name,
    decreases j,
{
    if exists|i: int| 0 <= i < j && (#[trigger] t.entries@[i]).0@ == name {
        let i = choose|i: int| 0 <= i < j && (#[trigger] t.entries@[i]).0@ == name;
        lemma_first_exists(t, name, i);
    } else {
        assert(0 <= j < t.entries@.len() && t.entries@[j].0@ == name && forall|i: int| 0 <= i < j ==> (#[trigger] t.entries@[i]).0@ != name);
    }
}

/// In a tree with increasing names, the first item called like item `i` is item `i`.
pub proof fn lemma_sorted_first(t: Tree, i: int)
    requires
        crate::tree::names_sorted(t),
        0 <= i < t.entries@.len(),
    ensures
        first_view(t, t.entries@[i].0@) == Some(item_view(t.entries@[i].0@, t.entries@[i].1)),
{
    let n = t.entries@[i].0@;
    assert(named_in(t, n));
    lemma_first_exists(t, n, i);
    let c = first_index(t, n);
    let names = crate::tree::item_names(t);
    assert(names[c] == t.entries@[c].0@);
    assert(names[i] == t.entries@[i].0@);
    if c < i {
        crate::codec::lemma_lt_asymmetric(names[c], names[i]);
    } else if i < c {
        crate::codec::lemma_lt_asymmetric(names[i], names[c]);
    }
}

/// The path of a name under a prefix lies under the prefix.
pub proof fn lemma_under_path(prefix: Seq<u8>, name: Seq<u8>, path: Seq<u8>)
    requires
        prefix.len() == 0 ==> path == name,
        prefix.len() > 0 ==> path == prefix + seq![47u8] + name,
    ensures
        under(prefix, path),
{
    if prefix.len() > 0 {
        assert(path.subrange(0, prefix.len() as int) =~= prefix);
    }
}

/// Lying under a path that lies under a prefix means lying under the prefix.
pub proof fn lemma_under_trans(prefix: Seq<u8>, mid: Seq<u8>, path: Seq<u8>)
    requires
        under(prefix, mid),
        under(mid, path),
    ensures
        under(prefix, path),
{
    if prefix.len() > 0 && mid.len() > 0 {
        assert(path.subrange(0, mid.len() as int).subrange(0, prefix.len() as int) =~= path.subrange(0, prefix.len() as int));
        assert(path[prefix.len() as int] == path.subrange(0, mid.len() as int)[prefix.len() as int]);
    }
}

} // verus!

verus! {

/// The views of a list of tree items.
pub open spec fn items_view(s: Seq<Entry>) -> Seq<crate::tree::EntryView> {
    s.map_values(|e: Entry| e@)
}

/// Every file below the tree `oid` (as loaded in `trees`, down to `depth` levels), named by its
/// path under `prefix`, in item order, subtrees expanded in place.
pub open spec fn flat(trees: Seq<(Vec<u8>, Tree)>, oid: Seq<u8>, prefix: Seq<u8>, depth: nat) -> Seq<crate::tree::EntryView>
    decreases depth, 1int, 0int,
{
    if depth == 0 {
        Seq::empty()
    } else {
        match store_tree(trees, oid) {
            Some(t) => flat_items(trees, t, prefix, depth, t.entries@.len() as int),
            None => Seq::empty(),
        }
    }
}

/// The files below the first `n` items of `t`.
pub open spec fn flat_items(trees: Seq<(Vec<u8>, Tree)>, t: Tree, prefix: Seq<u8>, depth: nat, n: int) -> Seq<crate::tree::EntryView>
    decreases depth, 0int, n,
{
    if n <= 0 || n > t.entries@.len() || depth == 0 {
        Seq::empty()
    } else {
        let e = item_view(t.entries@[n - 1].0@, t.entries@[n - 1].1);
        let path = join_spec(prefix, e.name);
        flat_items(trees, t, prefix, depth, n - 1) + if tree_mode(e.mode) == TREE_MODE {
            flat(trees, e.oid, path, (depth - 1) as nat)
        } else {
            seq![crate::tree::EntryView { name: path, oid: e.oid, mode: e.mode }]
        }
    }
}

/// A recorded change as a value: path, old side, new side.
pub open spec fn change_view(c: Change) -> (Seq<u8>, Option<crate::tree::EntryView>, Option<crate::tree::EntryView>) {
    (c.path@, side_view(c.old), side_view(c.new))
}

/// The values of a list of recorded changes.
pub open spec fn changes_view(s: Seq<Change>) -> Seq<(Seq<u8>, Option<crate::tree::EntryView>, Option<crate::tree::EntryView>)> {
    s.map_values(|c: Change| change_view(c))
}

/// Some tree without items.
pub open spec fn empty_tree() -> Tree {
    choose|t: Tree| t.entries@.len() == 0
}

/// The tree that side `x` names as loaded in `trees`, an absent side being an empty tree.
pub open spec fn side_tree(trees: Seq<(Vec<u8>, Tree)>, x: Option<Seq<u8>>) -> Tree {
    match x {
        Some(o) => store_tree(trees, o)->0,
        None => empty_tree(),
    }
}

/// The changes between the trees `a` and `b` (as loaded in `trees`), under `prefix`, down to
/// `depth` levels: for each item of `a` the changes below it and its own file change, then for
/// each item that only `b` has its files.
pub open spec fn diff_spec(
    trees: Seq<(Vec<u8>, Tree)>,
    a: Option<Seq<u8>>,
    b: Option<Seq<u8>>,
    prefix: Seq<u8>,
    depth: nat,
) -> Seq<(Seq<u8>, Option<crate::tree::EntryView>, Option<crate::tree::EntryView>)>
    decreases depth, 3int, 0int,
{
    if a == b || depth == 0 {
        Seq::empty()
    } else {
        let ta = side_tree(trees, a);
        let tb = side_tree(trees, b);
        dels_spec(trees, ta, tb, prefix, depth, ta.entries@.len() as int) + adds_spec(
            trees,
            ta,
            tb,
            prefix,
            depth,
            tb.entries@.len() as int,
        )
    }
}

/// The changes for the first `n` items of `ta`.
pub open spec fn dels_spec(
    trees: Seq<(Vec<u8>, Tree)>,
    ta: Tree,
    tb: Tree,
    prefix: Seq<u8>,
    depth: nat,
    n: int,
) -> Seq<(Seq<u8>, Option<crate::tree::EntryView>, Option<crate::tree::EntryView>)>
    decreases depth, 2int, n,
{
    if n <= 0 || n > ta.entries@.len() || depth == 0 {
        Seq::empty()
    } else {
        dels_spec(trees, ta, tb, prefix, depth, n - 1) + item_del(trees, ta, tb, prefix, depth, n - 1)
    }
}

/// The changes for item `i` of `ta`, against the first item of the same name in `tb`.
pub open spec fn item_del(
    trees: Seq<(Vec<u8>, Tree)>,
    ta: Tree,
    tb: Tree,
    prefix: Seq<u8>,
    depth: nat,
    i: int,
) -> Seq<(Seq<u8>, Option<crate::tree::EntryView>, Option<crate::tree::EntryView>)>
    decreases depth, 1int, 0int,
{
    if i < 0 || i >= ta.entries@.len() || depth == 0 {
        Seq::empty()
    } else {
        let ra = item_view(ta.entries@[i].0@, ta.entries@[i].1);
        let ob = first_view(tb, ra.name);
        let path = join_spec(prefix, ra.name);
        if ob is Some && ob->0.mode == ra.mode && ob->0.oid == ra.oid {
            Seq::empty()
        } else {
            let b_tree = ob is Some && !is_file(ob->0);
            let b_file = ob is Some && is_file(ob->0);
            diff_spec(
                trees,
                if !is_file(ra) { Some(ra.oid) } else { None },
                if b_tree { Some(ob->0.oid) } else { None },
                path,
                (depth - 1) as nat,
            ) + if is_file(ra) || b_file {
                seq![(path, if is_file(ra) { Some(ra) } else { None }, if b_file { ob } else { None })]
            } else {
                Seq::empty()
            }
        }
    }
}

/// The changes for the first `n` items of `tb` that `ta` lacks.
pub open spec fn adds_spec(
    trees: Seq<(Vec<u8>, Tree)>,
    ta: Tree,
    tb: Tree,
    prefix: Seq<u8>,
    depth: nat,
    n: int,
) -> Seq<(Seq<u8>, Option<crate::tree::EntryView>, Option<crate::tree::EntryView>)>
    decreases depth, 2int, n,
{
    if n <= 0 || n > tb.entries@.len() || depth == 0 {
        Seq::empty()
    } else {
        adds_spec(trees, ta, tb, prefix, depth, n - 1) + item_add(trees, ta, tb, prefix, depth, n - 1)
    }
}

/// The changes for item `j` of `tb` when `ta` lacks its name: a file added, or the files of a
/// subtree.
pub open spec fn item_add(
    trees: Seq<(Vec<u8>, Tree)>,
    ta: Tree,
    tb: Tree,
    prefix: Seq<u8>,
    depth: nat,
    j: int,
) -> Seq<(Seq<u8>, Option<crate::tree::EntryView>, Option<crate::tree::EntryView>)>
    decreases depth, 1int, 0int,
{
    if j < 0 || j >= tb.entries@.len() || depth == 0 {
        Seq::empty()
    } else {
        let rb = item_view(tb.entries@[j].0@, tb.entries@[j].1);
        let path = join_spec(prefix, rb.name);
        if named_in(ta, rb.name) {
            Seq::empty()
        } else if !is_file(rb) {
            diff_spec(trees, None, Some(rb.oid), path, (depth - 1) as nat)
        } else {
            seq![(path, None, Some(rb))]
        }
    }
}

/// The additions against a tree without items do not depend on which one.
pub proof fn lemma_adds_empty(trees: Seq<(Vec<u8>, Tree)>, e1: Tree, e2: Tree, tb: Tree, prefix: Seq<u8>, depth: nat, n: int)
    requires
        e1.entries@.len() == 0,
        e2.entries@.len() == 0,
    ensures
        adds_spec(trees, e1, tb, prefix, depth, n) == adds_spec(trees, e2, tb, prefix, depth, n),
    decreases n,
{
    if n > 0 && n <= tb.entries@.len() && depth > 0 {
        lemma_adds_empty(trees, e1, e2, tb, prefix, depth, n - 1);
        let name = tb.entries@[n - 1].0@;
        assert(!named_in(e1, name));
        assert(!named_in(e2, name));
        assert(item_add(trees, e1, tb, prefix, depth, n - 1) == item_add(trees, e2, tb, prefix, depth, n - 1));
    }
}

/// The deletions against a tree without items do not depend on which one.
pub proof fn lemma_dels_empty(trees: Seq<(Vec<u8>, Tree)>, ta: Tree, e1: Tree, e2: Tree, prefix: Seq<u8>, depth: nat, n: int)
    requires
        e1.entries@.len() == 0,
        e2.entries@.len() == 0,
    ensures
        dels_spec(trees, ta, e1, prefix, depth, n) == dels_spec(trees, ta, e2, prefix, depth, n),
    decreases n,
{
    if n > 0 && n <= ta.entries@.len() && depth > 0 {
        lemma_dels_empty(trees, ta, e1, e2, prefix, depth, n - 1);
        let name = ta.entries@[n - 1].0@;
        assert(!named_in(e1, name));
        assert(!named_in(e2, name));
        assert(first_view(e1, name) is None && first_view(e2, name) is None);
        assert(item_del(trees, ta, e1, prefix, depth, n - 1) == item_del(trees, ta, e2, prefix, depth, n - 1));
    }
}

/// Appends to `out` every file of the tree `oid`, named by its path under `prefix`, descending
/// at most `depth` levels; subtrees are not listed themselves. Fails with the id of a tree that
/// the store lacks.
#[verifier::spinoff_prover]
#[verifier::rlimit(100)]
pub fn flatten_tree(store: &TreeStore, oid: &[u8], prefix: &[u8], depth: usize, out: &mut Vec<Entry>) -> (r: Result<(), Vec<u8>>)
    requires
        forall|i: int| 0 <= i < old(out)@.len() ==> tree_mode((#[trigger] old(out)@[i]).mode) != TREE_MODE,
    ensures
        forall|i: int| 0 <= i < final(out)@.len() ==> tree_mode((#[trigger] final(out)@[i]).mode) != TREE_MODE,
        final(out)@.len() >= old(out)@.len(),
        forall|i: int| 0 <= i < old(out)@.len() ==> final(out)@[i] == old(out)@[i],
        forall|i: int| old(out)@.len() <= i < final(out)@.len() ==> under(prefix@, (#[trigger] final(out)@[i]).name@),
        loaded(store.trees@, oid@, depth as nat) ==> r is Ok,
        r matches Err(o) ==> o@.len() == 0 || store_tree(store.trees@, o@) is None,
        r is Ok ==> items_view(final(out)@) == items_view(old(out)@) + flat(store.trees@, oid@, prefix@, depth as nat),
    decreases depth,
{
    let t = match store.lookup(oid) {
        Some(t) => t,
        None => return Err(copy_bytes(oid)),
    };
    if depth == 0 {
        return Err(Vec::new());
    }
    let ghost start = out@;
    assert(items_view(out@) =~= items_view(start) + flat_items(store.trees@, *t, prefix@, depth as nat, 0));
    let mut i: usize = 0;
    while i < t.entries.len()
        invariant
            i <= t.entries@.len(),
            depth > 0,
            out@.len() >= start.len(),
            start == old(out)@,
            forall|k: int| 0 <= k < start.len() ==> out@[k] == start[k],
            forall|k: int| 0 <= k < out@.len() ==> tree_mode((#[trigger] out@[k]).mode) != TREE_MODE,
            forall|k: int| start.len() <= k < out@.len() ==> under(prefix@, (#[trigger] out@[k]).name@),
            loaded(store.trees@, oid@, depth as nat) ==> items_loaded(store.trees@, *t, depth as nat),
            store_tree(store.trees@, oid@) == Some(*t),
            items_view(out@) == items_view(start) + flat_items(store.trees@, *t, prefix@, depth as nat, i as int),
        decreases t.entries@.len() - i,
    {
        let e = item_entry(&t.entries[i].0, &t.entries[i].1);
        let path = join(prefix, &e.name);
        proof {
            lemma_under_path(prefix@, e.name@, path@);
        }
        let ghost mid = out@;
        if e.mode() == TREE_MODE {
            proof {
                if loaded(store.trees@, oid@, depth as nat) {
                    assert(e@ == item_view(t.entries@[i as int].0@, t.entries@[i as int].1));
                    assert(loaded(store.trees@, e.oid@, (depth - 1) as nat));
                }
            }
            let res = flatten_tree(store, &e.oid, &path, depth - 1, out);
            proof {
                assert forall|k: int| start.len() <= k < out@.len() implies under(prefix@, (#[trigger] out@[k]).name@) by {
                    if k < mid.len() {
                        assert(out@[k] == mid[k]);
                    } else {
                        lemma_under_trans(prefix@, path@, out@[k].name@);
                    }
                }
            }
            match res {
                Err(m) => return Err(m),
                Ok(()) => {},
            }
            proof {
                let ev = item_view(t.entries@[i as int].0@, t.entries@[i as int].1);
                assert(e@ == ev);
                assert(flat_items(store.trees@, *t, prefix@, depth as nat, i + 1) == flat_items(store.trees@, *t, prefix@, depth as nat, i as int)
                    + flat(store.trees@, ev.oid, path@, (depth - 1) as nat));
                assert(items_view(out@) =~= items_view(start) + flat_items(store.trees@, *t, prefix@, depth as nat, i + 1));
            }
        } else {
            out.push(Entry { name: path, oid: e.oid, mode: e.mode });
            proof {
                assert forall|k: int| 0 <= k < out@.len() implies tree_mode((#[trigger] out@[k]).mode) != TREE_MODE by {
                    if k < mid.len() {
                        assert(out@[k] == mid[k]);
                    }
                }
                assert forall|k: int| start.len() <= k < out@.len() implies under(prefix@, (#[trigger] out@[k]).name@) by {
                    if k < mid.len() {
                        assert(out@[k] == mid[k]);
                    }
                }
                let ev = item_view(t.entries@[i as int].0@, t.entries@[i as int].1);
                assert(e@ == ev);
                assert(flat_items(store.trees@, *t, prefix@, depth as nat, i + 1) == flat_items(store.trees@, *t, prefix@, depth as nat, i as int)
                    + seq![crate::tree::EntryView { name: path@, oid: ev.oid, mode: ev.mode }]);
                assert(items_view(out@) =~= items_view(mid).push(out@[out@.len() - 1]@));
                assert(items_view(out@) =~= items_view(start) + flat_items(store.trees@, *t, prefix@, depth as nat, i + 1));
            }
        }
        i += 1;
    }
    proof {
        assert(flat(store.trees@, oid@, prefix@, depth as nat) == flat_items(store.trees@, *t, prefix@, depth as nat, t.entries@.len() as int));
    }
    Ok(())
}

} // verus!
