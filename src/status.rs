use vstd::prelude::*;

use crate::codec::{bytes_lt, compare_bytes, copy_bytes, lemma_lt_total, lemma_lt_transitive};
use crate::index::{
    is_parent_dir, stat_match_spec, times_match_spec, tracked_in, with_stat, Entry, EntryView,
    Index, Stat,
};
use crate::object::{object_id, oid_of, ObjectKind};
use crate::workspace::{is_trackable, trackable, Workspace};

verus! {

/// How a path changed between two snapshots.
#[derive(Clone, Copy, Debug, PartialEq, Eq, Structural)]
pub enum ChangeType {
    Added,
    Modified,
    Deleted,
}

/// Keys strictly increasing.
pub open spec fn keys_sorted<V>(v: Seq<(Vec<u8>, V)>) -> bool {
    forall|i: int, j: int| 0 <= i < j < v.len() ==> bytes_lt(v[i].0@, v[j].0@)
}

/// Whether `v` maps `key` to `val`.
pub open spec fn maps_to<V>(v: Seq<(Vec<u8>, V)>, key: Seq<u8>, val: V) -> bool {
    exists|i: int| 0 <= i < v.len() && (#[trigger] v[i]).0@ == key && v[i].1 == val
}

/// Sets `key` to `val` in a list kept in increasing key order, replacing an earlier value.
pub fn insert_keyed<V>(v: &mut Vec<(Vec<u8>, V)>, key: Vec<u8>, val: V)
    requires
        keys_sorted(old(v)@),
    ensures
        keys_sorted(final(v)@),
        maps_to(final(v)@, key@, val),
        forall|k: Seq<u8>, x: V| k != key@ ==> (maps_to(final(v)@, k, x) <==> maps_to(old(v)@, k, x)),
        forall|k: Seq<u8>, x: V, y: V| maps_to(final(v)@, k, x) && maps_to(final(v)@, k, y) ==> x == y,
{
    let ghost o = v@;
    let n = v.len();
    let mut i: usize = 0;
    while i < n && compare_bytes(&v[i].0, &key) < 0
        invariant
            n == v@.len(),
            v@ == o,
            keys_sorted(o),
            i <= n,
            forall|a: int| 0 <= a < i ==> bytes_lt((#[trigger] o[a]).0@, key@),
        decreases n - i,
    {
        i += 1;
    }
    let ghost kv = key@;
    if i < n && compare_bytes(&v[i].0, &key) == 0 {
        v.set(i, (key, val));
        proof {
            let f = v@;
            assert(f[i as int].0@ == kv);
            assert forall|k: Seq<u8>, x: V| k != kv implies (maps_to(f, k, x) <==> maps_to(o, k, x)) by {
                if maps_to(f, k, x) {
                    let a = choose|a: int| 0 <= a < f.len() && (#[trigger] f[a]).0@ == k && f[a].1 == x;
                    assert(o[a] == f[a]);
                }
                if maps_to(o, k, x) {
                    let a = choose|a: int| 0 <= a < o.len() && (#[trigger] o[a]).0@ == k && o[a].1 == x;
                    assert(a != i);
                    assert(f[a] == o[a]);
                }
            }
        }
    } else {
        v.insert(i, (key, val));
        proof {
            let f = v@;
            if i < n {
                let c = o[i as int].0@;
                assert(!bytes_lt(c, kv));
                lemma_lt_total(c, kv);
            }
            assert forall|a: int, b: int| 0 <= a < b < f.len() implies bytes_lt(f[a].0@, f[b].0@) by {
                if b < i {
                    assert(f[a] == o[a] && f[b] == o[b]);
                } else if b == i {
                    assert(f[a] == o[a]);
                } else if a == i {
                    assert(f[b] == o[b - 1]);
                    if b - 1 > i {
                        lemma_lt_transitive(kv, o[i as int].0@, o[b - 1].0@);
                    }
                } else if a < i {
                    assert(f[a] == o[a] && f[b] == o[b - 1]);
                } else {
                    assert(f[a] == o[a - 1] && f[b] == o[b - 1]);
                }
            }
            assert forall|k: Seq<u8>, x: V| k != kv implies (maps_to(f, k, x) <==> maps_to(o, k, x)) by {
                if maps_to(f, k, x) {
                    let a = choose|a: int| 0 <= a < f.len() && (#[trigger] f[a]).0@ == k && f[a].1 == x;
                    if a < i {
                        assert(o[a] == f[a]);
                    } else {
                        assert(a != i);
                        assert(o[a - 1] == f[a]);
                    }
                }
                if maps_to(o, k, x) {
                    let a = choose|a: int| 0 <= a < o.len() && (#[trigger] o[a]).0@ == k && o[a].1 == x;
                    if a < i {
                        assert(f[a] == o[a]);
                    } else {
                        assert(f[a + 1] == o[a]);
                    }
                }
            }
        }
    }
    proof {
        let f = v@;
        assert(f[i as int].0@ == kv && f[i as int].1 == val);
        assert forall|k: Seq<u8>, x: V, y: V| maps_to(f, k, x) && maps_to(f, k, y) implies x == y by {
            let a = choose|a: int| 0 <= a < f.len() && (#[trigger] f[a]).0@ == k && f[a].1 == x;
            let b = choose|b: int| 0 <= b < f.len() && (#[trigger] f[b]).0@ == k && f[b].1 == y;
            if a < b {
                crate::codec::lemma_lt_asymmetric(f[a].0@, f[b].0@);
            } else if b < a {
                crate::codec::lemma_lt_asymmetric(f[b].0@, f[a].0@);
            }
        }
    }
}

/// What comparing an index entry with the working tree's metadata decides.
#[derive(Clone, Copy, Debug, PartialEq, Eq, Structural)]
pub enum WorkspaceCheck {
    /// The stat cache shows the file unchanged.
    Unchanged,
    /// Mode or size differ: the file changed.
    Modified,
    /// The file is gone.
    Deleted,
    /// Metadata alone cannot tell: the file's contents must be hashed.
    ReadContents,
}

/// The decision for an entry and the file's metadata, if the file exists.
pub open spec fn workspace_check_spec(e: EntryView, stat: Option<Stat>) -> WorkspaceCheck {
    match stat {
        None => WorkspaceCheck::Deleted,
        Some(s) => if !stat_match_spec(e, s) {
            WorkspaceCheck::Modified
        } else if times_match_spec(e, s) {
            WorkspaceCheck::Unchanged
        } else {
            WorkspaceCheck::ReadContents
        },
    }
}

/// Compares an index entry with the file's metadata. A file whose timestamps match the stat
/// cache is never read.
pub fn check_index_against_workspace(entry: &Entry, stat: Option<Stat>) -> (r: WorkspaceCheck)
    ensures
        r == workspace_check_spec(entry@, stat),
        stat is Some && stat_match_spec(entry@, stat->0) && times_match_spec(entry@, stat->0) ==> r
            == WorkspaceCheck::Unchanged,
{
    match stat {
        None => WorkspaceCheck::Deleted,
        Some(s) => {
            if !entry.stat_match(&s) {
                WorkspaceCheck::Modified
            } else if entry.times_match(&s) {
                WorkspaceCheck::Unchanged
            } else {
                WorkspaceCheck::ReadContents
            }
        },
    }
}

/// Settles an entry whose file had to be read: when the contents hash to the recorded object
/// id, the entry's stat cache is refreshed and nothing changed; otherwise the file is modified
/// and the index stays as it was.
pub fn check_contents(index: &mut Index, path: &[u8], stat: &Stat, data: &[u8]) -> (r: Option<
    ChangeType,
>)
    requires
        old(index).wf(),
    ensures
        final(index).wf(),
        ({
            let same = exists|i: int|
                0 <= i < old(index).view_seq().len() && (#[trigger] old(index).view_seq()[i]).path == path@
                    && old(index).view_seq()[i].oid == object_id(ObjectKind::Blob, data@);
            &&& same ==> r is None && final(index).changed && final(index).view_seq().len() == old(
                index,
            ).view_seq().len() && forall|i: int|
                0 <= i < old(index).view_seq().len() ==> #[trigger] final(index).view_seq()[i] == if old(
                    index,
                ).view_seq()[i].path == path@ {
                    with_stat(old(index).view_seq()[i], *stat)
                } else {
                    old(index).view_seq()[i]
                }
            &&& !same ==> r == Some(ChangeType::Modified) && *final(index) == *old(index)
        }),
{
    let oid = oid_of(ObjectKind::Blob, data);
    match index.position(path) {
        Some(i) => {
            if compare_bytes(&index.entries[i].oid, &oid) == 0 {
                proof {
                    assert(index.view_seq()[i as int].path == path@);
                }
                index.update_entry_stat(path, stat);
                None
            } else {
                proof {
                    assert forall|k: int| 0 <= k < index.view_seq().len() && #[trigger] index.view_seq()[k].path
                        == path@ implies index.view_seq()[k].oid != object_id(ObjectKind::Blob, data@) by {
                        if k != i {
                            let vs = index.view_seq();
                            if k < i {
                                crate::codec::lemma_lt_asymmetric(vs[k].path, vs[i as int].path);
                            } else {
                                crate::codec::lemma_lt_asymmetric(vs[i as int].path, vs[k].path);
                            }
                        }
                    }
                }
                Some(ChangeType::Modified)
            }
        },
        None => Some(ChangeType::Modified),
    }
}

/// How the index differs from the HEAD tree at one path: added when HEAD lacks it, modified
/// when mode or object id differ.
pub open spec fn head_change_spec(e: EntryView, head: Seq<crate::tree::EntryView>) -> Option<ChangeType> {
    if exists|i: int| 0 <= i < head.len() && (#[trigger] head[i]).name == e.path {
        let i = choose|i: int| 0 <= i < head.len() && (#[trigger] head[i]).name == e.path;
        if crate::tree::tree_mode(head[i].mode) == e.mode && head[i].oid == e.oid {
            None
        } else {
            Some(ChangeType::Modified)
        }
    } else {
        Some(ChangeType::Added)
    }
}

/// The views of a list of tree items.
pub open spec fn head_view(head: Seq<crate::tree::Entry>) -> Seq<crate::tree::EntryView> {
    head.map_values(|h: crate::tree::Entry| h@)
}

/// The files of a HEAD tree, each named by its full path, with no path twice.
pub open spec fn head_files_wf(head: Seq<crate::tree::EntryView>) -> bool {
    forall|i: int, j: int| 0 <= i < head.len() && 0 <= j < head.len() && i != j ==> head[i].name != head[j].name
}

/// Compares an index entry with the HEAD tree's file at its path.
pub fn check_index_against_head_tree(entry: &Entry, head: &Vec<crate::tree::Entry>) -> (r: Option<ChangeType>)
    requires
        head_files_wf(head_view(head@)),
    ensures
        r == head_change_spec(entry@, head_view(head@)),
{
    let ghost hv = head_view(head@);
    let mut i: usize = 0;
    while i < head.len()
        invariant
            i <= head@.len(),
            hv == head_view(head@),
            head_files_wf(hv),
            forall|k: int| 0 <= k < i ==> (#[trigger] hv[k]).name != entry@.path,
        decreases head@.len() - i,
    {
        if compare_bytes(&head[i].name, &entry.path) == 0 {
            let same = head[i].mode() == entry.mode && compare_bytes(&head[i].oid, &entry.oid) == 0;
            proof {
                assert(hv[i as int].name == entry@.path);
                let c = choose|c: int| 0 <= c < hv.len() && (#[trigger] hv[c]).name == entry@.path;
                if c != i {
                    assert(hv[c].name != hv[i as int].name);
                }
            }
            if same {
                return None;
            } else {
                return Some(ChangeType::Modified);
            }
        }
        i += 1;
    }
    Some(ChangeType::Added)
}

} // verus!

verus! {

/// No path occurs twice in the working tree's listing.
pub open spec fn ws_wf(ws: Workspace) -> bool {
    forall|i: int, j: int|
        0 <= i < ws.items@.len() && 0 <= j < ws.items@.len() && i != j ==> ws.items@[i].path@
            != ws.items@[j].path@
}

/// `d` is the directory directly holding `p`.
pub open spec fn direct_parent(d: Seq<u8>, p: Seq<u8>) -> bool {
    is_parent_dir(d, p) && forall|k: int| d.len() < k < p.len() ==> p[k] != 47
}

/// Whether `p` sits directly in the root: it has no `/`.
pub open spec fn at_root(p: Seq<u8>) -> bool {
    forall|k: int| 0 <= k < p.len() ==> p[k] != 47
}

/// A path that status lists as untracked: a trackable item, not itself tracked, whose
/// directory is the root or a tracked directory (so the scan reaches it).
pub open spec fn listed_untracked(ws: Workspace, idx: Index, p: Seq<u8>) -> bool {
    &&& exists|i: int| 0 <= i < ws.items@.len() && (#[trigger] ws.items@[i]).path@ == p
    &&& !tracked_in(idx.view_seq(), p)
    &&& trackable(ws, idx, p)
    &&& (at_root(p) || exists|d: Seq<u8>| direct_parent(d, p) && tracked_in(idx.view_seq(), d))
}

/// The directory directly holding `p`, if `p` is not at the root.
pub fn parent_of(p: &[u8]) -> (r: Option<Vec<u8>>)
    ensures
        match r {
            Some(d) => direct_parent(d@, p@),
            None => at_root(p@),
        },
{
    let mut k: usize = p.len();
    while k > 0 && p[k - 1] != 47
        invariant
            k <= p@.len(),
            forall|q: int| k <= q < p@.len() ==> p@[q] != 47,
        decreases k,
    {
        k -= 1;
    }
    if k == 0 {
        None
    } else {
        let d = crate::codec::slice_to_vec(p, 0, k - 1);
        proof {
            assert(p@.subrange(0, d@.len() as int) =~= d@);
        }
        Some(d)
    }
}

/// A directory has only one directly holding directory.
pub proof fn lemma_direct_parent_unique(d1: Seq<u8>, d2: Seq<u8>, p: Seq<u8>)
    requires
        direct_parent(d1, p),
        direct_parent(d2, p),
    ensures
        d1 == d2,
{
    if d1.len() < d2.len() {
        assert(p[d1.len() as int] == 47);
    }
    if d2.len() < d1.len() {
        assert(p[d2.len() as int] == 47);
    }
    assert(d1 =~= p.subrange(0, d1.len() as int));
    assert(d2 =~= p.subrange(0, d2.len() as int));
}

/// The untracked paths that status lists, in path order; a directory is marked `true`.
pub fn scan_untracked(ws: &Workspace, idx: &Index) -> (r: Vec<(Vec<u8>, bool)>)
    requires
        idx.wf(),
    ensures
        keys_sorted(r@),
        forall|p: Seq<u8>, d: bool| maps_to(r@, p, d) ==> listed_untracked(*ws, *idx, p),
        forall|i: int|
            0 <= i < ws.items@.len() && listed_untracked(*ws, *idx, (#[trigger] ws.items@[i]).path@) ==> exists|d: bool|
                maps_to(r@, ws.items@[i].path@, d),
{
    let mut out: Vec<(Vec<u8>, bool)> = Vec::new();
    let mut i: usize = 0;
    while i < ws.items.len()
        invariant
            idx.wf(),
            i <= ws.items@.len(),
            keys_sorted(out@),
            forall|p: Seq<u8>, d: bool| maps_to(out@, p, d) ==> listed_untracked(*ws, *idx, p),
            forall|k: int|
                0 <= k < i && listed_untracked(*ws, *idx, (#[trigger] ws.items@[k]).path@) ==> exists|d: bool|
                    maps_to(out@, ws.items@[k].path@, d),
        decreases ws.items@.len() - i,
    {
        let it = &ws.items[i];
        let reach = match parent_of(&it.path) {
            None => true,
            Some(d) => {
                let t = idx.is_tracked(&d);
                proof {
                    if !t {
                        assert forall|d2: Seq<u8>| direct_parent(d2, it.path@) implies !tracked_in(idx.view_seq(), d2) by {
                            lemma_direct_parent_unique(d@, d2, it.path@);
                        }
                    }
                }
                t
            },
        };
        if reach && !idx.is_tracked(&it.path) && is_trackable(ws, idx, &it.path) {
            let ghost before = out@;
            insert_keyed(&mut out, copy_bytes(&it.path), it.is_dir);
            proof {
                assert(listed_untracked(*ws, *idx, it.path@));
                assert forall|k: int|
                    0 <= k <= i && listed_untracked(*ws, *idx, (#[trigger] ws.items@[k]).path@) implies exists|d: bool|
                        maps_to(out@, ws.items@[k].path@, d) by {
                    if k < i {
                        let d = choose|d: bool| maps_to(before, ws.items@[k].path@, d);
                        if ws.items@[k].path@ != it.path@ {
                            assert(maps_to(out@, ws.items@[k].path@, d));
                        } else {
                            assert(maps_to(out@, ws.items@[k].path@, it.is_dir));
                        }
                    } else {
                        assert(maps_to(out@, ws.items@[k].path@, it.is_dir));
                    }
                }
                assert forall|p: Seq<u8>, d: bool| maps_to(out@, p, d) implies listed_untracked(*ws, *idx, p) by {
                    if p != it.path@ {
                        assert(maps_to(before, p, d));
                    }
                }
            }
        } else {
            proof {
                assert(!listed_untracked(*ws, *idx, it.path@));
            }
        }
        i += 1;
    }
    out
}

/// The HEAD files that the index does not hold, each marked deleted, in path order.
pub fn collect_deleted_head_files(head: &Vec<crate::tree::Entry>, idx: &Index) -> (r: Vec<(Vec<u8>, ChangeType)>)
    requires
        idx.wf(),
    ensures
        keys_sorted(r@),
        forall|p: Seq<u8>, c: ChangeType| maps_to(r@, p, c) ==> c == ChangeType::Deleted && (exists|i: int|
            0 <= i < head@.len() && (#[trigger] head@[i]).name@ == p) && forall|j: int|
            0 <= j < idx.view_seq().len() ==> (#[trigger] idx.view_seq()[j]).path != p,
        forall|i: int|
            0 <= i < head@.len() && (forall|j: int|
                0 <= j < idx.view_seq().len() ==> (#[trigger] idx.view_seq()[j]).path != (#[trigger] head@[i]).name@)
                ==> maps_to(r@, head@[i].name@, ChangeType::Deleted),
{
    let mut out: Vec<(Vec<u8>, ChangeType)> = Vec::new();
    let mut i: usize = 0;
    while i < head.len()
        invariant
            idx.wf(),
            i <= head@.len(),
            keys_sorted(out@),
            forall|p: Seq<u8>, c: ChangeType| maps_to(out@, p, c) ==> c == ChangeType::Deleted && (exists|k: int|
                0 <= k < head@.len() && (#[trigger] head@[k]).name@ == p) && forall|j: int|
                0 <= j < idx.view_seq().len() ==> (#[trigger] idx.view_seq()[j]).path != p,
            forall|k: int|
                0 <= k < i && (forall|j: int|
                    0 <= j < idx.view_seq().len() ==> (#[trigger] idx.view_seq()[j]).path != (#[trigger] head@[k]).name@)
                    ==> maps_to(out@, head@[k].name@, ChangeType::Deleted),
        decreases head@.len() - i,
    {
        let h = &head[i];
        if !idx.is_tracked_path(&h.name) {
            let ghost before = out@;
            insert_keyed(&mut out, copy_bytes(&h.name), ChangeType::Deleted);
            proof {
                assert forall|j: int| 0 <= j < idx.view_seq().len() implies (#[trigger] idx.view_seq()[j]).path != h.name@ by {
                    assert(idx.entries@[j].path@ == idx.view_seq()[j].path);
                }
                assert forall|p: Seq<u8>, c: ChangeType| maps_to(out@, p, c) implies c == ChangeType::Deleted && (exists|k: int|
                    0 <= k < head@.len() && (#[trigger] head@[k]).name@ == p) && forall|j: int|
                    0 <= j < idx.view_seq().len() ==> (#[trigger] idx.view_seq()[j]).path != p by {
                    if p != h.name@ {
                        assert(maps_to(before, p, c));
                    } else {
                        assert(head@[i as int].name@ == p);
                        if c != ChangeType::Deleted {
                            assert(maps_to(out@, p, ChangeType::Deleted));
                        }
                    }
                }
                assert forall|k: int|
                    0 <= k <= i && (forall|j: int|
                        0 <= j < idx.view_seq().len() ==> (#[trigger] idx.view_seq()[j]).path != (#[trigger] head@[k]).name@)
                        implies maps_to(out@, head@[k].name@, ChangeType::Deleted) by {
                    if k < i && head@[k].name@ != h.name@ {
                        assert(maps_to(before, head@[k].name@, ChangeType::Deleted));
                    }
                }
            }
        } else {
            proof {
                let j = choose|j: int| 0 <= j < idx.entries@.len() && (#[trigger] idx.entries@[j]).path@ == h.name@;
                assert(idx.view_seq()[j].path == h.name@);
            }
        }
        i += 1;
    }
    out
}

} // verus!

verus! {

/// The metadata of the file (not directory) at `p` in the working tree, if there is one.
pub open spec fn file_stat(ws: Workspace, p: Seq<u8>) -> Option<Stat> {
    if exists|i: int| 0 <= i < ws.items@.len() && (#[trigger] ws.items@[i]).path@ == p && !ws.items@[i].is_dir {
        let i = choose|i: int| 0 <= i < ws.items@.len() && (#[trigger] ws.items@[i]).path@ == p && !ws.items@[i].is_dir;
        Some(ws.items@[i].stat)
    } else {
        None
    }
}

/// The contents read for `p`, if any.
pub open spec fn read_for(contents: Seq<(Vec<u8>, Vec<u8>)>, p: Seq<u8>) -> Option<Seq<u8>> {
    if exists|i: int| 0 <= i < contents.len() && (#[trigger] contents[i]).0@ == p {
        let i = choose|i: int| 0 <= i < contents.len() && (#[trigger] contents[i]).0@ == p;
        Some(contents[i].1@)
    } else {
        None
    }
}

/// How the working tree differs from an index entry; files whose metadata cannot tell are
/// judged by the contents read for them (a file that could not be read counts as modified).
pub open spec fn workspace_change_spec(
    e: EntryView,
    ws: Workspace,
    contents: Seq<(Vec<u8>, Vec<u8>)>,
) -> Option<ChangeType> {
    match workspace_check_spec(e, file_stat(ws, e.path)) {
        WorkspaceCheck::Deleted => Some(ChangeType::Deleted),
        WorkspaceCheck::Modified => Some(ChangeType::Modified),
        WorkspaceCheck::Unchanged => None,
        WorkspaceCheck::ReadContents => match read_for(contents, e.path) {
            Some(d) => if object_id(ObjectKind::Blob, d) == e.oid {
                None
            } else {
                Some(ChangeType::Modified)
            },
            None => Some(ChangeType::Modified),
        },
    }
}

/// Whether an entry's stat cache is refreshed: its file had to be read and hashed to the
/// recorded object id.
pub open spec fn refreshed(e: EntryView, ws: Workspace, contents: Seq<(Vec<u8>, Vec<u8>)>) -> bool {
    workspace_check_spec(e, file_stat(ws, e.path)) == WorkspaceCheck::ReadContents && read_for(
        contents,
        e.path,
    ) is Some && object_id(ObjectKind::Blob, read_for(contents, e.path)->0) == e.oid
}

/// The file metadata for `p`.
pub fn find_file_stat(ws: &Workspace, p: &[u8]) -> (r: Option<Stat>)
    requires
        ws_wf(*ws),
    ensures
        r == file_stat(*ws, p@),
{
    let mut i: usize = 0;
    while i < ws.items.len()
        invariant
            ws_wf(*ws),
            i <= ws.items@.len(),
            forall|k: int| 0 <= k < i ==> !((#[trigger] ws.items@[k]).path@ == p@ && !ws.items@[k].is_dir),
        decreases ws.items@.len() - i,
    {
        if !ws.items[i].is_dir && compare_bytes(&ws.items[i].path, p) == 0 {
            proof {
                let c = choose|c: int| 0 <= c < ws.items@.len() && (#[trigger] ws.items@[c]).path@ == p@ && !ws.items@[c].is_dir;
                if c != i {
                    assert(ws.items@[c].path@ != ws.items@[i as int].path@);
                }
            }
            return Some(ws.items[i].stat);
        }
        i += 1;
    }
    None
}

/// The contents read for `p`, if any.
pub fn find_read<'a>(contents: &'a Vec<(Vec<u8>, Vec<u8>)>, p: &[u8]) -> (r: Option<&'a Vec<u8>>)
    requires
        forall|i: int, j: int|
            0 <= i < contents@.len() && 0 <= j < contents@.len() && i != j ==> contents@[i].0@ != contents@[j].0@,
    ensures
        match r {
            Some(d) => read_for(contents@, p@) == Some(d@),
            None => read_for(contents@, p@) is None,
        },
{
    let mut i: usize = 0;
    while i < contents.len()
        invariant
            i <= contents@.len(),
            forall|a: int, b: int|
                0 <= a < contents@.len() && 0 <= b < contents@.len() && a != b ==> contents@[a].0@ != contents@[b].0@,
            forall|k: int| 0 <= k < i ==> (#[trigger] contents@[k]).0@ != p@,
        decreases contents@.len() - i,
    {
        if compare_bytes(&contents[i].0, p) == 0 {
            proof {
                let c = choose|c: int| 0 <= c < contents@.len() && (#[trigger] contents@[c]).0@ == p@;
                if c != i {
                    assert(contents@[c].0@ != contents@[i as int].0@);
                }
            }
            return Some(&contents[i].1);
        }
        i += 1;
    }
    None
}

/// The byte strings held by a list of vectors.
pub open spec fn paths_view(v: Seq<Vec<u8>>) -> Seq<Seq<u8>> {
    v.map_values(|x: Vec<u8>| x@)
}

/// The tracked files whose metadata cannot settle their state, so their contents must be
/// read. A file whose timestamps match the stat cache is never among them.
pub fn files_to_read(idx: &Index, ws: &Workspace) -> (r: Vec<Vec<u8>>)
    requires
        idx.wf(),
        ws_wf(*ws),
    ensures
        forall|p: Seq<u8>| #[trigger] paths_view(r@).contains(p) <==> exists|i: int|
            0 <= i < idx.view_seq().len() && (#[trigger] idx.view_seq()[i]).path == p
                && workspace_check_spec(idx.view_seq()[i], file_stat(*ws, p)) == WorkspaceCheck::ReadContents,
{
    let mut out: Vec<Vec<u8>> = Vec::new();
    let mut i: usize = 0;
    while i < idx.entries.len()
        invariant
            idx.wf(),
            ws_wf(*ws),
            i <= idx.entries@.len(),
            forall|p: Seq<u8>| #[trigger] paths_view(out@).contains(p) <==> exists|k: int|
                0 <= k < i && (#[trigger] idx.view_seq()[k]).path == p
                    && workspace_check_spec(idx.view_seq()[k], file_stat(*ws, p)) == WorkspaceCheck::ReadContents,
        decreases idx.entries@.len() - i,
    {
        let e = &idx.entries[i];
        let st = find_file_stat(ws, &e.path);
        let ghost before = paths_view(out@);
        if check_index_against_workspace(e, st) == WorkspaceCheck::ReadContents {
            out.push(copy_bytes(&e.path));
        }
        proof {
            let after = paths_view(out@);
            assert(idx.view_seq()[i as int] == e@);
            assert forall|p: Seq<u8>| #[trigger] after.contains(p) <==> exists|k: int|
                0 <= k < i + 1 && (#[trigger] idx.view_seq()[k]).path == p
                    && workspace_check_spec(idx.view_seq()[k], file_stat(*ws, p)) == WorkspaceCheck::ReadContents by {
                if after.contains(p) {
                    let w = choose|w: int| 0 <= w < after.len() && after[w] == p;
                    if w < before.len() {
                        assert(before[w] == p);
                        assert(before.contains(p));
                    }
                }
                if exists|k: int|
                    0 <= k < i + 1 && (#[trigger] idx.view_seq()[k]).path == p
                        && workspace_check_spec(idx.view_seq()[k], file_stat(*ws, p)) == WorkspaceCheck::ReadContents {
                    let k = choose|k: int|
                        0 <= k < i + 1 && (#[trigger] idx.view_seq()[k]).path == p
                            && workspace_check_spec(idx.view_seq()[k], file_stat(*ws, p)) == WorkspaceCheck::ReadContents;
                    if k < i {
                        assert(before.contains(p));
                        let w = choose|w: int| 0 <= w < before.len() && before[w] == p;
                        assert(after[w] == p);
                    } else {
                        assert(after[after.len() - 1] == p);
                    }
                }
            }
        }
        i += 1;
    }
    out
}

} // verus!

verus! {

/// Distinct index entries have distinct paths.
pub proof fn lemma_index_paths_distinct(v: Seq<EntryView>, a: int, b: int)
    requires
        crate::index::sorted_paths(v),
        0 <= a < v.len(),
        0 <= b < v.len(),
        a != b,
    ensures
        v[a].path != v[b].path,
{
    if a < b {
        crate::codec::lemma_lt_asymmetric(v[a].path, v[b].path);
    } else {
        crate::codec::lemma_lt_asymmetric(v[b].path, v[a].path);
    }
}

/// Whether `p` maps to `c` among the index changes found for the first `i` entries, or
/// among the deleted HEAD files `del`.
pub open spec fn index_change_upto(
    old_v: Seq<EntryView>,
    hv: Seq<crate::tree::EntryView>,
    del: Seq<(Vec<u8>, ChangeType)>,
    i: int,
    p: Seq<u8>,
    c: ChangeType,
) -> bool {
    (exists|k: int| 0 <= k < i && (#[trigger] old_v[k]).path == p && head_change_spec(old_v[k], hv) == Some(c))
        || maps_to(del, p, c)
}

/// The result of comparing HEAD, the index and the working tree.
pub struct Status {
    /// Untracked paths in path order; a directory is marked `true`.
    pub untracked: Vec<(Vec<u8>, bool)>,
    /// How the working tree differs from the index, by path.
    pub workspace_changes: Vec<(Vec<u8>, ChangeType)>,
    /// How the index differs from HEAD, by path.
    pub index_changes: Vec<(Vec<u8>, ChangeType)>,
}

impl Status {
    /// Compares HEAD's files, the index and the working tree. `contents` holds what was read
    /// for the files that `files_to_read` named. Entries whose file was read and found
    /// unchanged get their stat cache refreshed in `index`.
    #[verifier::spinoff_prover]
    pub fn initialize(
        index: &mut Index,
        ws: &Workspace,
        head: &Vec<crate::tree::Entry>,
        contents: &Vec<(Vec<u8>, Vec<u8>)>,
    ) -> (r: Status)
        requires
            old(index).wf(),
            ws_wf(*ws),
            head_files_wf(head_view(head@)),
            forall|i: int, j: int|
                0 <= i < contents@.len() && 0 <= j < contents@.len() && i != j ==> contents@[i].0@
                    != contents@[j].0@,
        ensures
            final(index).wf(),
            final(index).view_seq().len() == old(index).view_seq().len(),
            forall|k: int|
                0 <= k < old(index).view_seq().len() ==> #[trigger] final(index).view_seq()[k] == if refreshed(
                    old(index).view_seq()[k],
                    *ws,
                    contents@,
                ) {
                    with_stat(old(index).view_seq()[k], file_stat(*ws, old(index).view_seq()[k].path)->0)
                } else {
                    old(index).view_seq()[k]
                },
            keys_sorted(r.untracked@),
            forall|p: Seq<u8>, d: bool| maps_to(r.untracked@, p, d) ==> listed_untracked(*ws, *old(index), p),
            forall|i: int|
                0 <= i < ws.items@.len() && listed_untracked(*ws, *old(index), (#[trigger] ws.items@[i]).path@)
                    ==> exists|d: bool| maps_to(r.untracked@, ws.items@[i].path@, d),
            keys_sorted(r.workspace_changes@),
            forall|p: Seq<u8>, c: ChangeType|
                maps_to(r.workspace_changes@, p, c) <==> exists|k: int|
                    0 <= k < old(index).view_seq().len() && (#[trigger] old(index).view_seq()[k]).path == p
                        && workspace_change_spec(old(index).view_seq()[k], *ws, contents@) == Some(c),
            keys_sorted(r.index_changes@),
            forall|p: Seq<u8>, c: ChangeType|
                maps_to(r.index_changes@, p, c) <==> ((exists|k: int|
                    0 <= k < old(index).view_seq().len() && (#[trigger] old(index).view_seq()[k]).path == p
                        && head_change_spec(
                        old(index).view_seq()[k],
                        head_view(head@),
                    ) == Some(c)) || (c == ChangeType::Deleted && (exists|i: int|
                    0 <= i < head@.len() && (#[trigger] head@[i]).name@ == p) && forall|j: int|
                    0 <= j < old(index).view_seq().len() ==> (#[trigger] old(index).view_seq()[j]).path
                        != p)),
    {
        let ghost old_v = index.view_seq();
        let ghost old_index = *index;
        let untracked = scan_untracked(ws, index);
        let deleted = collect_deleted_head_files(head, index);
        let ghost del = deleted@;
        let mut index_changes = deleted;
        let mut workspace_changes: Vec<(Vec<u8>, ChangeType)> = Vec::new();
        let n = index.entries.len();
        let mut i: usize = 0;
        while i < n
            invariant
                n == old_v.len(),
                index.wf(),
                index.view_seq().len() == n,
                ws_wf(*ws),
                head_files_wf(head_view(head@)),
                forall|a: int, b: int|
                    0 <= a < contents@.len() && 0 <= b < contents@.len() && a != b ==> contents@[a].0@
                        != contents@[b].0@,
                crate::index::sorted_paths(old_v),
                i <= n,
                forall|k: int|
                    0 <= k < n ==> #[trigger] index.view_seq()[k] == if k < i && refreshed(old_v[k], *ws, contents@) {
                        with_stat(old_v[k], file_stat(*ws, old_v[k].path)->0)
                    } else {
                        old_v[k]
                    },
                keys_sorted(workspace_changes@),
                forall|p: Seq<u8>, c: ChangeType|
                    maps_to(workspace_changes@, p, c) <==> exists|k: int|
                        0 <= k < i && (#[trigger] old_v[k]).path == p && workspace_change_spec(old_v[k], *ws, contents@)
                            == Some(c),
                keys_sorted(index_changes@),
                forall|p: Seq<u8>, c: ChangeType|
                    #[trigger] maps_to(index_changes@, p, c) <==> index_change_upto(old_v, head_view(head@), del, i as int, p, c),
                forall|p: Seq<u8>, c: ChangeType| maps_to(del, p, c) ==> c == ChangeType::Deleted && (exists|k: int|
                    0 <= k < head@.len() && (#[trigger] head@[k]).name@ == p) && forall|j: int|
                    0 <= j < old_v.len() ==> (#[trigger] old_v[j]).path != p,
                forall|k: int|
                    0 <= k < head@.len() && (forall|j: int|
                        0 <= j < old_v.len() ==> (#[trigger] old_v[j]).path != (#[trigger] head@[k]).name@)
                        ==> maps_to(del, head@[k].name@, ChangeType::Deleted),
            decreases n - i,
        {
            let ghost ev = old_v[i as int];
            assert(index.view_seq()[i as int] == ev);
            let path = copy_bytes(&index.entries[i].path);
            let hc = check_index_against_head_tree(&index.entries[i], head);
            assert(hc == head_change_spec(ev, head_view(head@)));
            let st = find_file_stat(ws, &path);
            let wc = check_index_against_workspace(&index.entries[i], st);
            let change: Option<ChangeType> = match wc {
                WorkspaceCheck::Deleted => Some(ChangeType::Deleted),
                WorkspaceCheck::Modified => Some(ChangeType::Modified),
                WorkspaceCheck::Unchanged => None,
                WorkspaceCheck::ReadContents => {
                    match find_read(contents, &path) {
                        Some(data) => {
                            let stat = st.unwrap();
                            let ghost before = index.view_seq();
                            let c = check_contents(index, &path, &stat, data);
                            proof {
                                if object_id(ObjectKind::Blob, data@) == ev.oid {
                                    assert(before[i as int].path == path@);
                                }
                                assert forall|k: int| 0 <= k < n && k != i implies before[k].path != path@ by {
                                    lemma_index_paths_distinct(old_v, k, i as int);
                                }
                            }
                            c
                        },
                        None => Some(ChangeType::Modified),
                    }
                },
            };
            proof {
                assert(change == workspace_change_spec(ev, *ws, contents@));
                assert forall|k: int| 0 <= k < n implies #[trigger] index.view_seq()[k] == if k < i + 1 && refreshed(old_v[k], *ws, contents@) {
                    with_stat(old_v[k], file_stat(*ws, old_v[k].path)->0)
                } else {
                    old_v[k]
                } by {
                    if k != i {
                        lemma_index_paths_distinct(old_v, k, i as int);
                    }
                }
            }
            match change {
                Some(c) => {
                    let ghost before = workspace_changes@;
                    insert_keyed(&mut workspace_changes, copy_bytes(&path), c);
                    proof {
                        assert forall|p: Seq<u8>, x: ChangeType|
                            maps_to(workspace_changes@, p, x) <==> exists|k: int|
                                0 <= k < i + 1 && (#[trigger] old_v[k]).path == p && workspace_change_spec(old_v[k], *ws, contents@)
                                    == Some(x) by {
                            if p == path@ {
                                if exists|k: int|
                                    0 <= k < i + 1 && (#[trigger] old_v[k]).path == p && workspace_change_spec(old_v[k], *ws, contents@)
                                        == Some(x) {
                                    let k = choose|k: int|
                                        0 <= k < i + 1 && (#[trigger] old_v[k]).path == p && workspace_change_spec(old_v[k], *ws, contents@)
                                            == Some(x);
                                    if k != i {
                                        lemma_index_paths_distinct(old_v, k, i as int);
                                    }
                                }
                            } else {
                                if exists|k: int|
                                    0 <= k < i + 1 && (#[trigger] old_v[k]).path == p && workspace_change_spec(old_v[k], *ws, contents@)
                                        == Some(x) {
                                    let k = choose|k: int|
                                        0 <= k < i + 1 && (#[trigger] old_v[k]).path == p && workspace_change_spec(old_v[k], *ws, contents@)
                                            == Some(x);
                                    assert(k != i);
                                }
                            }
                        }
                    }
                },
                None => {
                    proof {
                        assert forall|p: Seq<u8>, x: ChangeType|
                            maps_to(workspace_changes@, p, x) <==> exists|k: int|
                                0 <= k < i + 1 && (#[trigger] old_v[k]).path == p && workspace_change_spec(old_v[k], *ws, contents@)
                                    == Some(x) by {
                            if exists|k: int|
                                0 <= k < i + 1 && (#[trigger] old_v[k]).path == p && workspace_change_spec(old_v[k], *ws, contents@)
                                    == Some(x) {
                                let k = choose|k: int|
                                    0 <= k < i + 1 && (#[trigger] old_v[k]).path == p && workspace_change_spec(old_v[k], *ws, contents@)
                                        == Some(x);
                                assert(k != i);
                            }
                        }
                    }
                },
            }
            let ghost before_ic = index_changes@;
            match hc {
                Some(c) => {
                    insert_keyed(&mut index_changes, copy_bytes(&path), c);
                },
                None => {},
            }
            proof {
                let hv = head_view(head@);
                assert forall|p: Seq<u8>, x: ChangeType|
                    #[trigger] maps_to(index_changes@, p, x) <==> index_change_upto(old_v, hv, del, i + 1, p, x) by {
                    let lhs = maps_to(index_changes@, p, x);
                    let ex_new = exists|k: int|
                        0 <= k < i + 1 && (#[trigger] old_v[k]).path == p && head_change_spec(old_v[k], hv)
                            == Some(x);
                    let ex_old = exists|k: int|
                        0 <= k < i && (#[trigger] old_v[k]).path == p && head_change_spec(old_v[k], hv)
                            == Some(x);
                    assert(maps_to(before_ic, p, x) <==> index_change_upto(old_v, hv, del, i as int, p, x));
                    if ex_old {
                        let k = choose|k: int|
                            0 <= k < i && (#[trigger] old_v[k]).path == p && head_change_spec(old_v[k], hv)
                                == Some(x);
                        assert(0 <= k < i + 1 && old_v[k].path == p && head_change_spec(old_v[k], hv) == Some(x));
                    }
                    if ex_new {
                        let k = choose|k: int|
                            0 <= k < i + 1 && (#[trigger] old_v[k]).path == p && head_change_spec(old_v[k], hv)
                                == Some(x);
                        if k < i {
                            assert(ex_old);
                        } else {
                            assert(k == i);
                            assert(hc == Some(x));
                        }
                    }
                    if maps_to(del, p, x) {
                        assert(old_v[i as int].path != p);
                    }
                    if p == path@ {
                        if ex_old {
                            let k = choose|k: int|
                                0 <= k < i && (#[trigger] old_v[k]).path == p && head_change_spec(old_v[k], hv)
                                    == Some(x);
                            lemma_index_paths_distinct(old_v, k, i as int);
                        }
                        match hc {
                            Some(c) => {
                                assert(maps_to(index_changes@, p, c));
                                if lhs {
                                    assert(x == c);
                                    assert(old_v[i as int].path == p && head_change_spec(old_v[i as int], hv) == Some(x));
                                }
                            },
                            None => {
                                if ex_new {
                                    let k = choose|k: int|
                                        0 <= k < i + 1 && (#[trigger] old_v[k]).path == p && head_change_spec(old_v[k], hv)
                                            == Some(x);
                                    assert(k == i);
                                }
                                assert(index_changes@ == before_ic);
                            },
                        }
                    } else {
                        match hc {
                            Some(c) => {
                                assert(lhs == maps_to(before_ic, p, x));
                            },
                            None => {
                                assert(index_changes@ == before_ic);
                            },
                        }
                        if ex_new {
                            let k = choose|k: int|
                                0 <= k < i + 1 && (#[trigger] old_v[k]).path == p && head_change_spec(old_v[k], hv)
                                    == Some(x);
                            assert(k != i);
                            assert(ex_old);
                        }
                    }
                }
            }
            i += 1;
        }
        proof {
            let hv = head_view(head@);
            assert forall|p: Seq<u8>, c: ChangeType|
                maps_to(index_changes@, p, c) <==> ((exists|k: int|
                    0 <= k < n && (#[trigger] old_v[k]).path == p && head_change_spec(old_v[k], hv) == Some(c))
                    || (c == ChangeType::Deleted && (exists|i: int|
                    0 <= i < head@.len() && (#[trigger] head@[i]).name@ == p) && forall|j: int|
                    0 <= j < n ==> (#[trigger] old_v[j]).path != p)) by {
                if c == ChangeType::Deleted && (exists|i: int|
                    0 <= i < head@.len() && (#[trigger] head@[i]).name@ == p) && forall|j: int|
                    0 <= j < n ==> (#[trigger] old_v[j]).path != p {
                    let i = choose|i: int| 0 <= i < head@.len() && (#[trigger] head@[i]).name@ == p;
                    assert(forall|j: int| 0 <= j < old_v.len() ==> (#[trigger] old_v[j]).path != head@[i].name@);
                    assert(maps_to(del, head@[i].name@, ChangeType::Deleted));
                }
            }
        }
        Status { untracked, workspace_changes, index_changes }
    }
}

} // verus!

verus! {

/// Whether no path occurs twice in the working tree's listing.
pub fn ws_paths_distinct(ws: &Workspace) -> (r: bool)
    ensures
        r == ws_wf(*ws),
{
    let n = ws.items.len();
    let mut i: usize = 0;
    while i < n
        invariant
            n == ws.items@.len(),
            i <= n,
            forall|a: int, b: int| 0 <= a < i && 0 <= b < n && a != b ==> ws.items@[a].path@ != ws.items@[b].path@,
        decreases n - i,
    {
        let mut j: usize = 0;
        while j < n
            invariant
                n == ws.items@.len(),
                i < n,
                j <= n,
                forall|a: int, b: int| 0 <= a < i && 0 <= b < n && a != b ==> ws.items@[a].path@ != ws.items@[b].path@,
                forall|b: int| 0 <= b < j && b != i ==> ws.items@[i as int].path@ != ws.items@[b].path@,
            decreases n - j,
        {
            if j != i && compare_bytes(&ws.items[i].path, &ws.items[j].path) == 0 {
                return false;
            }
            j += 1;
        }
        i += 1;
    }
    true
}

/// Whether no path occurs twice among a HEAD tree's files.
pub fn head_paths_distinct(head: &Vec<crate::tree::Entry>) -> (r: bool)
    ensures
        r == head_files_wf(head_view(head@)),
{
    let n = head.len();
    let mut i: usize = 0;
    while i < n
        invariant
            n == head@.len(),
            i <= n,
            forall|a: int, b: int| 0 <= a < i && 0 <= b < n && a != b ==> head_view(head@)[a].name != head_view(head@)[b].name,
        decreases n - i,
    {
        let mut j: usize = 0;
        while j < n
            invariant
                n == head@.len(),
                i < n,
                j <= n,
                forall|a: int, b: int| 0 <= a < i && 0 <= b < n && a != b ==> head_view(head@)[a].name != head_view(head@)[b].name,
                forall|b: int| 0 <= b < j && b != i ==> head_view(head@)[i as int].name != head_view(head@)[b].name,
            decreases n - j,
        {
            if j != i && compare_bytes(&head[i].name, &head[j].name) == 0 {
                assert(head_view(head@)[i as int].name == head_view(head@)[j as int].name);
                return false;
            }
            j += 1;
        }
        i += 1;
    }
    true
}

} // verus!
