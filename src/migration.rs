use vstd::prelude::*;

use crate::codec::{compare_bytes, copy_bytes, slice_to_vec};
use crate::index::{is_parent_dir, EntryView, Index};
use crate::object::ObjectKind;
use crate::status::{
    file_stat, find_file_stat, insert_keyed, keys_sorted, maps_to, workspace_change_spec,
    ws_wf,
};
use crate::tree::{tree_mode, Entry};
use crate::tree_diff::Change;
use crate::workspace::{is_trackable, trackable, Workspace};

verus! {

/// The kinds of local work that a checkout would destroy.
#[derive(Clone, Copy, Debug, PartialEq, Eq, Structural)]
pub enum ConflictType {
    StaleFile,
    StaleDirectory,
    UntrackedOverwritten,
    UntrackedRemoved,
}

/// What a planned change does to a path of the working tree.
#[derive(Clone, Copy, Debug, PartialEq, Eq, Structural)]
pub enum Action {
    Create,
    Delete,
    Update,
}

/// The view of an optional tree entry: mode and object id.
pub open spec fn item_of(e: Option<Entry>) -> Option<(u32, Seq<u8>)> {
    match e {
        Some(x) => Some((tree_mode(x.mode), x.oid@)),
        None => None,
    }
}

/// Whether a tree side and the index agree on a path: both absent, or same mode and id.
pub open spec fn tree_matches_index(item: Option<(u32, Seq<u8>)>, entry: Option<EntryView>) -> bool {
    match (item, entry) {
        (None, None) => true,
        (Some((m, o)), Some(e)) => m == e.mode && o == e.oid,
        _ => false,
    }
}

/// The index entry at `p`, if any.
pub open spec fn entry_at(idx: Index, p: Seq<u8>) -> Option<EntryView> {
    if exists|i: int| 0 <= i < idx.view_seq().len() && (#[trigger] idx.view_seq()[i]).path == p {
        let i = choose|i: int| 0 <= i < idx.view_seq().len() && (#[trigger] idx.view_seq()[i]).path == p;
        Some(idx.view_seq()[i])
    } else {
        None
    }
}

/// Whether the working tree has a directory at `p`.
pub open spec fn ws_dir(ws: Workspace, p: Seq<u8>) -> bool {
    exists|i: int| 0 <= i < ws.items@.len() && (#[trigger] ws.items@[i]).path@ == p && ws.items@[i].is_dir
}

/// An ancestor directory of a path that is in fact an untracked file, which the checkout would
/// have to replace.
pub open spec fn blocking(ws: Workspace, idx: Index, d: Seq<u8>) -> bool {
    file_stat(ws, d) is Some && trackable(ws, idx, d)
}

/// The deepest blocking ancestor of `p`, if any.
pub open spec fn untracked_parent_spec(ws: Workspace, idx: Index, p: Seq<u8>) -> Option<Seq<u8>> {
    if exists|d: Seq<u8>| is_parent_dir(d, p) && blocking(ws, idx, d) {
        let d = choose|d: Seq<u8>|
            is_parent_dir(d, p) && blocking(ws, idx, d) && forall|d2: Seq<u8>|
                is_parent_dir(d2, p) && d2.len() > d.len() ==> !blocking(ws, idx, d2);
        Some(d)
    } else {
        None
    }
}

/// Whether the working tree's file at a path differs from the index entry there (an untracked
/// file always does).
pub open spec fn workspace_differs(
    entry: Option<EntryView>,
    ws: Workspace,
    contents: Seq<(Vec<u8>, Vec<u8>)>,
) -> bool {
    match entry {
        None => true,
        Some(e) => workspace_change_spec(e, ws, contents) is Some,
    }
}

/// The conflict, if any, that changing `path` from `old` to `new` meets, and the path to report.
pub open spec fn conflict_spec(
    path: Seq<u8>,
    old: Option<(u32, Seq<u8>)>,
    new: Option<(u32, Seq<u8>)>,
    idx: Index,
    ws: Workspace,
    contents: Seq<(Vec<u8>, Vec<u8>)>,
) -> Option<(ConflictType, Seq<u8>)> {
    let entry = entry_at(idx, path);
    if !tree_matches_index(old, entry) && !tree_matches_index(new, entry) {
        Some((ConflictType::StaleFile, path))
    } else {
        let is_dir = ws_dir(ws, path);
        let kind = if entry is Some {
            ConflictType::StaleFile
        } else if is_dir {
            ConflictType::StaleDirectory
        } else if new is Some {
            ConflictType::UntrackedOverwritten
        } else {
            ConflictType::UntrackedRemoved
        };
        if file_stat(ws, path) is Some {
            if workspace_differs(entry, ws, contents) {
                Some((kind, path))
            } else {
                None
            }
        } else if is_dir {
            if trackable(ws, idx, path) {
                Some((kind, path))
            } else {
                None
            }
        } else {
            match untracked_parent_spec(ws, idx, path) {
                Some(d) => Some((kind, if entry is Some { path } else { d })),
                None => None,
            }
        }
    }
}

/// The deepest ancestor directory of `path` that is in fact an untracked file.
pub fn untracked_parent(ws: &Workspace, idx: &Index, path: &[u8]) -> (r: Option<Vec<u8>>)
    requires
        idx.wf(),
        ws_wf(*ws),
    ensures
        match r {
            Some(d) => untracked_parent_spec(*ws, *idx, path@) == Some(d@),
            None => untracked_parent_spec(*ws, *idx, path@) is None,
        },
{
    let mut k: usize = path.len();
    while k > 0
        invariant
            idx.wf(),
            ws_wf(*ws),
            k <= path@.len(),
            forall|d: Seq<u8>| is_parent_dir(d, path@) && d.len() >= k ==> !blocking(*ws, *idx, d),
        decreases k,
    {
        k -= 1;
        if path[k] == 47 {
            let d = slice_to_vec(path, 0, k);
            proof {
                assert(path@.subrange(0, k as int) =~= d@);
            }
            let st = find_file_stat(ws, &d);
            if st.is_some() && is_trackable(ws, idx, &d) {
                proof {
                    assert(is_parent_dir(d@, path@));
                    assert(blocking(*ws, *idx, d@));
                    let c = choose|c: Seq<u8>|
                        is_parent_dir(c, path@) && blocking(*ws, *idx, c) && forall|d2: Seq<u8>|
                            is_parent_dir(d2, path@) && d2.len() > c.len() ==> !blocking(*ws, *idx, d2);
                    assert(is_parent_dir(d@, path@) && blocking(*ws, *idx, d@) && forall|d2: Seq<u8>|
                        is_parent_dir(d2, path@) && d2.len() > d@.len() ==> !blocking(*ws, *idx, d2));
                    if c.len() < d@.len() {
                        assert(false);
                    }
                    if c.len() > d@.len() {
                        assert(!blocking(*ws, *idx, c));
                    }
                    assert(c =~= path@.subrange(0, c.len() as int));
                }
                return Some(d);
            }
        }
        proof {
            assert forall|d: Seq<u8>| is_parent_dir(d, path@) && d.len() >= k implies !blocking(*ws, *idx, d) by {
                if d.len() == k {
                    assert(path@[k as int] == 47);
                    assert(d =~= path@.subrange(0, k as int));
                }
            }
        }
    }
    None
}

} // verus!

verus! {

/// How the working tree's file differs from an index entry, judged like status does.
pub fn workspace_change(
    e: &crate::index::Entry,
    ws: &Workspace,
    contents: &Vec<(Vec<u8>, Vec<u8>)>,
) -> (r: Option<crate::status::ChangeType>)
    requires
        ws_wf(*ws),
        forall|i: int, j: int|
            0 <= i < contents@.len() && 0 <= j < contents@.len() && i != j ==> contents@[i].0@ != contents@[j].0@,
    ensures
        r == workspace_change_spec(e@, *ws, contents@),
{
    let st = find_file_stat(ws, &e.path);
    match crate::status::check_index_against_workspace(e, st) {
        crate::status::WorkspaceCheck::Deleted => Some(crate::status::ChangeType::Deleted),
        crate::status::WorkspaceCheck::Modified => Some(crate::status::ChangeType::Modified),
        crate::status::WorkspaceCheck::Unchanged => None,
        crate::status::WorkspaceCheck::ReadContents => match crate::status::find_read(contents, &e.path) {
            Some(d) => {
                let oid = crate::object::oid_of(ObjectKind::Blob, d);
                if compare_bytes(&oid, &e.oid) == 0 {
                    None
                } else {
                    Some(crate::status::ChangeType::Modified)
                }
            },
            None => Some(crate::status::ChangeType::Modified),
        },
    }
}

/// Whether a tree side and an index entry agree.
fn tree_matches(item: &Option<Entry>, entry: Option<&crate::index::Entry>) -> (r: bool)
    ensures
        r == tree_matches_index(
            item_of(*item),
            match entry {
                Some(e) => Some(e@),
                None => None,
            },
        ),
{
    match (item, entry) {
        (None, None) => true,
        (Some(x), Some(e)) => x.mode() == e.mode && compare_bytes(&x.oid, &e.oid) == 0,
        _ => false,
    }
}

/// The conflict that changing `path` from `old` to `new` meets, and the path to report.
pub fn check_for_conflict(
    path: &[u8],
    old: &Option<Entry>,
    new: &Option<Entry>,
    idx: &Index,
    ws: &Workspace,
    contents: &Vec<(Vec<u8>, Vec<u8>)>,
) -> (r: Option<(ConflictType, Vec<u8>)>)
    requires
        idx.wf(),
        ws_wf(*ws),
        forall|i: int, j: int|
            0 <= i < contents@.len() && 0 <= j < contents@.len() && i != j ==> contents@[i].0@ != contents@[j].0@,
    ensures
        match r {
            Some((t, p)) => conflict_spec(path@, item_of(*old), item_of(*new), *idx, *ws, contents@) == Some((t, p@)),
            None => conflict_spec(path@, item_of(*old), item_of(*new), *idx, *ws, contents@) is None,
        },
{
    let entry = idx.entry_for_path(path);
    proof {
        match entry {
            Some(e) => {
                let i = choose|i: int| 0 <= i < idx.entries@.len() && (#[trigger] idx.entries@[i])@ == e@;
                assert(idx.view_seq()[i].path == path@);
                let c = choose|c: int| 0 <= c < idx.view_seq().len() && (#[trigger] idx.view_seq()[c]).path == path@;
                if c != i {
                    crate::status::lemma_index_paths_distinct(idx.view_seq(), c, i);
                }
                assert(entry_at(*idx, path@) == Some(e@));
            },
            None => {
                assert forall|i: int| 0 <= i < idx.view_seq().len() implies (#[trigger] idx.view_seq()[i]).path != path@ by {
                    assert(idx.entries@[i].path@ == idx.view_seq()[i].path);
                }
            },
        }
    }
    if !tree_matches(old, entry) && !tree_matches(new, entry) {
        return Some((ConflictType::StaleFile, copy_bytes(path)));
    }
    let is_dir = ws.is_dir(path);
    let kind = if entry.is_some() {
        ConflictType::StaleFile
    } else if is_dir {
        ConflictType::StaleDirectory
    } else if new.is_some() {
        ConflictType::UntrackedOverwritten
    } else {
        ConflictType::UntrackedRemoved
    };
    let st = find_file_stat(ws, path);
    if st.is_some() {
        let differs = match entry {
            None => true,
            Some(e) => workspace_change(e, ws, contents).is_some(),
        };
        if differs {
            Some((kind, copy_bytes(path)))
        } else {
            None
        }
    } else if is_dir {
        if is_trackable(ws, idx, path) {
            Some((kind, copy_bytes(path)))
        } else {
            None
        }
    } else {
        match untracked_parent(ws, idx, path) {
            Some(d) => {
                if entry.is_some() {
                    Some((kind, copy_bytes(path)))
                } else {
                    Some((kind, d))
                }
            },
            None => None,
        }
    }
}

/// Adds every ancestor directory of `path` to `dirs`, a list kept in path order.
pub fn add_ancestors(dirs: &mut Vec<(Vec<u8>, bool)>, path: &[u8])
    requires
        keys_sorted(old(dirs)@),
        forall|p: Seq<u8>, x: bool| maps_to(old(dirs)@, p, x) ==> x,
    ensures
        keys_sorted(final(dirs)@),
        forall|p: Seq<u8>, x: bool| maps_to(final(dirs)@, p, x) ==> x,
        forall|p: Seq<u8>| #[trigger] maps_to(final(dirs)@, p, true) <==> (maps_to(old(dirs)@, p, true) || is_parent_dir(p, path@)),
{
    let ghost start = dirs@;
    let mut k: usize = 0;
    while k < path.len()
        invariant
            k <= path@.len(),
            start == old(dirs)@,
            keys_sorted(dirs@),
            forall|p: Seq<u8>, x: bool| maps_to(dirs@, p, x) ==> x,
            forall|p: Seq<u8>|
                #[trigger] maps_to(dirs@, p, true) <==> (maps_to(start, p, true) || (is_parent_dir(p, path@) && p.len() < k)),
        decreases path@.len() - k,
    {
        let ghost before = dirs@;
        if path[k] == 47 {
            let d = slice_to_vec(path, 0, k);
            insert_keyed(dirs, d, true);
            proof {
                assert(path@.subrange(0, k as int) =~= d@);
                assert(is_parent_dir(d@, path@));
            }
        }
        proof {
            assert forall|p: Seq<u8>|
                #[trigger] maps_to(dirs@, p, true) <==> (maps_to(start, p, true) || (is_parent_dir(p, path@) && p.len() < k + 1)) by {
                if path@[k as int] == 47 {
                    if p != path@.subrange(0, k as int) {
                        assert(maps_to(dirs@, p, true) == maps_to(before, p, true));
                        if is_parent_dir(p, path@) && p.len() == k {
                            assert(p =~= path@.subrange(0, k as int));
                        }
                    }
                } else {
                    assert(dirs@ == before);
                    assert(maps_to(dirs@, p, true) == maps_to(before, p, true));
                }
            }
        }
        k += 1;
    }
}

} // verus!

verus! {

/// The change of a tree diff as a view: path, old side, new side.
pub open spec fn change_view(c: Change) -> (Seq<u8>, Option<(u32, Seq<u8>)>, Option<(u32, Seq<u8>)>) {
    (c.path@, item_of(c.old), item_of(c.new))
}

/// Whether some change meets a conflict of kind `t` reported at `p`.
pub open spec fn has_conflict(
    changes: Seq<Change>,
    t: ConflictType,
    p: Seq<u8>,
    idx: Index,
    ws: Workspace,
    contents: Seq<(Vec<u8>, Vec<u8>)>,
) -> bool {
    exists|i: int|
        0 <= i < changes.len() && conflict_spec(
            (#[trigger] changes[i]).path@,
            item_of(changes[i].old),
            item_of(changes[i].new),
            idx,
            ws,
            contents,
        ) == Some((t, p))
}

/// The plan for moving the working tree and index from one tree to another.
pub struct Migration {
    /// The file changes between the two trees.
    pub changes: Vec<Change>,
    /// Files to delete.
    pub delete: Vec<Vec<u8>>,
    /// Files to rewrite, with their new entries.
    pub update: Vec<(Vec<u8>, Entry)>,
    /// Files to create, with their entries.
    pub create: Vec<(Vec<u8>, Entry)>,
    /// Directories to ensure, in path order.
    pub mkdirs: Vec<(Vec<u8>, bool)>,
    /// Directories that may become empty, in path order.
    pub rmdirs: Vec<(Vec<u8>, bool)>,
    /// Paths of each conflict kind, in path order.
    pub stale_files: Vec<(Vec<u8>, bool)>,
    pub stale_directories: Vec<(Vec<u8>, bool)>,
    pub untracked_overwritten: Vec<(Vec<u8>, bool)>,
    pub untracked_removed: Vec<(Vec<u8>, bool)>,
}

impl Migration {
    /// A migration for `changes`, nothing planned yet.
    pub fn new(changes: Vec<Change>) -> (r: Migration)
        ensures
            r.changes == changes,
            r.delete@.len() == 0 && r.update@.len() == 0 && r.create@.len() == 0,
            r.mkdirs@.len() == 0 && r.rmdirs@.len() == 0,
            r.stale_files@.len() == 0 && r.stale_directories@.len() == 0,
            r.untracked_overwritten@.len() == 0 && r.untracked_removed@.len() == 0,
    {
        Migration {
            changes,
            delete: Vec::new(),
            update: Vec::new(),
            create: Vec::new(),
            mkdirs: Vec::new(),
            rmdirs: Vec::new(),
            stale_files: Vec::new(),
            stale_directories: Vec::new(),
            untracked_overwritten: Vec::new(),
            untracked_removed: Vec::new(),
        }
    }

    /// The paths reported for conflicts of kind `t`.
    pub open spec fn conflicts_of(&self, t: ConflictType) -> Seq<(Vec<u8>, bool)> {
        match t {
            ConflictType::StaleFile => self.stale_files@,
            ConflictType::StaleDirectory => self.stale_directories@,
            ConflictType::UntrackedOverwritten => self.untracked_overwritten@,
            ConflictType::UntrackedRemoved => self.untracked_removed@,
        }
    }

    /// Plans the changes and detects conflicts against the index and the working tree (whose
    /// files named by `contents` were read). Fails exactly when some conflict was found; the
    /// index and the working tree are only read.
    #[verifier::spinoff_prover]
    pub fn plan_changes(&mut self, idx: &Index, ws: &Workspace, contents: &Vec<(Vec<u8>, Vec<u8>)>) -> (r: Result<(), ()>)
        requires
            idx.wf(),
            ws_wf(*ws),
            forall|i: int, j: int|
                0 <= i < contents@.len() && 0 <= j < contents@.len() && i != j ==> contents@[i].0@ != contents@[j].0@,
            old(self).delete@.len() == 0 && old(self).update@.len() == 0 && old(self).create@.len() == 0,
            old(self).mkdirs@.len() == 0 && old(self).rmdirs@.len() == 0,
            old(self).stale_files@.len() == 0 && old(self).stale_directories@.len() == 0,
            old(self).untracked_overwritten@.len() == 0 && old(self).untracked_removed@.len() == 0,
        ensures
            final(self).changes == old(self).changes,
            forall|t: ConflictType| keys_sorted(#[trigger] final(self).conflicts_of(t)),
            forall|t: ConflictType, p: Seq<u8>|
                #[trigger] maps_to(final(self).conflicts_of(t), p, true) <==> has_conflict(
                    old(self).changes@,
                    t,
                    p,
                    *idx,
                    *ws,
                    contents@,
                ),
            forall|t: ConflictType, p: Seq<u8>| maps_to(final(self).conflicts_of(t), p, false) ==> false,
            r is Ok <==> forall|t: ConflictType, p: Seq<u8>| !has_conflict(old(self).changes@, t, p, *idx, *ws, contents@),
            forall|i: int|
                0 <= i < old(self).changes@.len() ==> {
                    let c = #[trigger] old(self).changes@[i];
                    &&& (c.old is None && c.new is Some) ==> exists|j: int|
                        0 <= j < final(self).create@.len() && final(self).create@[j].0@ == c.path@
                            && final(self).create@[j].1@ == c.new->0@
                    &&& (c.old is Some && c.new is None) ==> exists|j: int|
                        0 <= j < final(self).delete@.len() && final(self).delete@[j]@ == c.path@
                    &&& (c.old is Some && c.new is Some) ==> exists|j: int|
                        0 <= j < final(self).update@.len() && final(self).update@[j].0@ == c.path@
                            && final(self).update@[j].1@ == c.new->0@
                },
            forall|d: Seq<u8>|
                #[trigger] maps_to(final(self).mkdirs@, d, true) <==> exists|i: int|
                    0 <= i < old(self).changes@.len() && (!((#[trigger] old(self).changes@[i]).old is Some
                        && old(self).changes@[i].new is None)) && is_parent_dir(d, old(self).changes@[i].path@),
            forall|d: Seq<u8>|
                #[trigger] maps_to(final(self).rmdirs@, d, true) <==> exists|i: int|
                    0 <= i < old(self).changes@.len() && (#[trigger] old(self).changes@[i]).old is Some
                        && old(self).changes@[i].new is None && is_parent_dir(d, old(self).changes@[i].path@),
    {
        let n = self.changes.len();
        let mut i: usize = 0;
        while i < n
            invariant
                n == self.changes@.len(),
                self.changes == old(self).changes,
                i <= n,
                idx.wf(),
                ws_wf(*ws),
                forall|a: int, b: int|
                    0 <= a < contents@.len() && 0 <= b < contents@.len() && a != b ==> contents@[a].0@ != contents@[b].0@,
                forall|t: ConflictType| keys_sorted(#[trigger] self.conflicts_of(t)),
                forall|t: ConflictType, p: Seq<u8>| maps_to(self.conflicts_of(t), p, false) ==> false,
                forall|t: ConflictType, p: Seq<u8>|
                    #[trigger] maps_to(self.conflicts_of(t), p, true) <==> has_conflict(
                        self.changes@.subrange(0, i as int),
                        t,
                        p,
                        *idx,
                        *ws,
                        contents@,
                    ),
                forall|k: int|
                    0 <= k < i ==> {
                        let c = #[trigger] self.changes@[k];
                        &&& (c.old is None && c.new is Some) ==> exists|j: int|
                            0 <= j < self.create@.len() && self.create@[j].0@ == c.path@ && self.create@[j].1@
                                == c.new->0@
                        &&& (c.old is Some && c.new is None) ==> exists|j: int|
                            0 <= j < self.delete@.len() && self.delete@[j]@ == c.path@
                        &&& (c.old is Some && c.new is Some) ==> exists|j: int|
                            0 <= j < self.update@.len() && self.update@[j].0@ == c.path@ && self.update@[j].1@
                                == c.new->0@
                    },
                keys_sorted(self.mkdirs@),
                forall|p: Seq<u8>, x: bool| maps_to(self.mkdirs@, p, x) ==> x,
                forall|d: Seq<u8>|
                    #[trigger] maps_to(self.mkdirs@, d, true) <==> exists|k: int|
                        0 <= k < i && (!((#[trigger] self.changes@[k]).old is Some && self.changes@[k].new is None))
                            && is_parent_dir(d, self.changes@[k].path@),
                keys_sorted(self.rmdirs@),
                forall|p: Seq<u8>, x: bool| maps_to(self.rmdirs@, p, x) ==> x,
                forall|d: Seq<u8>|
                    #[trigger] maps_to(self.rmdirs@, d, true) <==> exists|k: int|
                        0 <= k < i && (#[trigger] self.changes@[k]).old is Some && self.changes@[k].new is None
                            && is_parent_dir(d, self.changes@[k].path@),
            decreases n - i,
        {
            let ghost before = *self;
            let conflict = check_for_conflict(
                &self.changes[i].path,
                &self.changes[i].old,
                &self.changes[i].new,
                idx,
                ws,
                contents,
            );
            let ghost ci = self.changes@[i as int];
            assert(keys_sorted(self.conflicts_of(ConflictType::StaleFile)));
            assert(keys_sorted(self.conflicts_of(ConflictType::StaleDirectory)));
            assert(keys_sorted(self.conflicts_of(ConflictType::UntrackedOverwritten)));
            assert(keys_sorted(self.conflicts_of(ConflictType::UntrackedRemoved)));
            match conflict {
                Some((t, p)) => {
                    let ghost pv = p@;
                    match t {
                        ConflictType::StaleFile => insert_keyed(&mut self.stale_files, p, true),
                        ConflictType::StaleDirectory => insert_keyed(&mut self.stale_directories, p, true),
                        ConflictType::UntrackedOverwritten => insert_keyed(&mut self.untracked_overwritten, p, true),
                        ConflictType::UntrackedRemoved => insert_keyed(&mut self.untracked_removed, p, true),
                    }
                    proof {
                        assert forall|t2: ConflictType| keys_sorted(#[trigger] self.conflicts_of(t2)) by {
                            if t2 != t {
                                assert(self.conflicts_of(t2) == before.conflicts_of(t2));
                            }
                        }
                        assert forall|t2: ConflictType, q: Seq<u8>| maps_to(self.conflicts_of(t2), q, false) implies false by {
                            if t2 != t {
                                assert(self.conflicts_of(t2) == before.conflicts_of(t2));
                            } else if q != pv {
                                assert(maps_to(before.conflicts_of(t2), q, false));
                            } else {
                                assert(maps_to(self.conflicts_of(t2), q, true));
                            }
                        }
                        assert forall|t2: ConflictType, q: Seq<u8>|
                            #[trigger] maps_to(self.conflicts_of(t2), q, true) <==> has_conflict(
                                self.changes@.subrange(0, i + 1),
                                t2,
                                q,
                                *idx,
                                *ws,
                                contents@,
                            ) by {
                            lemma_has_conflict_step(self.changes@, i as int, t2, q, *idx, *ws, contents@);
                            if t2 != t {
                                assert(self.conflicts_of(t2) == before.conflicts_of(t2));
                            } else if q != pv {
                                assert(maps_to(self.conflicts_of(t2), q, true) == maps_to(before.conflicts_of(t2), q, true));
                            }
                        }
                    }
                },
                None => {
                    proof {
                        assert forall|t2: ConflictType, q: Seq<u8>|
                            #[trigger] maps_to(self.conflicts_of(t2), q, true) <==> has_conflict(
                                self.changes@.subrange(0, i + 1),
                                t2,
                                q,
                                *idx,
                                *ws,
                                contents@,
                            ) by {
                            lemma_has_conflict_step(self.changes@, i as int, t2, q, *idx, *ws, contents@);
                        }
                    }
                },
            }
            let ghost mid = *self;
            let path = copy_bytes(&self.changes[i].path);
            let is_delete = self.changes[i].old.is_some() && self.changes[i].new.is_none();
            if is_delete {
                add_ancestors(&mut self.rmdirs, &path);
            } else {
                add_ancestors(&mut self.mkdirs, &path);
            }
            let ghost mid2 = *self;
            if self.changes[i].old.is_none() {
                let e = match &self.changes[i].new {
                    Some(x) => Some(x.duplicate()),
                    None => None,
                };
                match e {
                    Some(x) => {
                        self.create.push((path, x));
                    },
                    None => {},
                }
            } else if is_delete {
                self.delete.push(path);
            } else {
                let e = match &self.changes[i].new {
                    Some(x) => x.duplicate(),
                    None => Entry { name: Vec::new(), oid: Vec::new(), mode: 0 },
                };
                self.update.push((path, e));
            }
            proof {
                assert(self.changes@[i as int] == ci);
                assert forall|k: int| 0 <= k < i + 1 implies {
                    let c = #[trigger] self.changes@[k];
                    &&& (c.old is None && c.new is Some) ==> exists|j: int|
                        0 <= j < self.create@.len() && self.create@[j].0@ == c.path@ && self.create@[j].1@
                            == c.new->0@
                    &&& (c.old is Some && c.new is None) ==> exists|j: int|
                        0 <= j < self.delete@.len() && self.delete@[j]@ == c.path@
                    &&& (c.old is Some && c.new is Some) ==> exists|j: int|
                        0 <= j < self.update@.len() && self.update@[j].0@ == c.path@ && self.update@[j].1@
                            == c.new->0@
                } by {
                    let c = self.changes@[k];
                    if k < i {
                        if c.old is None {
                            if c.new is Some {
                                let j = choose|j: int|
                                    0 <= j < mid2.create@.len() && mid2.create@[j].0@ == c.path@ && mid2.create@[j].1@
                                        == c.new->0@;
                                assert(self.create@[j] == mid2.create@[j]);
                            }
                        } else if c.new is None {
                            let j = choose|j: int| 0 <= j < mid2.delete@.len() && mid2.delete@[j]@ == c.path@;
                            assert(self.delete@[j] == mid2.delete@[j]);
                        } else {
                            let j = choose|j: int|
                                0 <= j < mid2.update@.len() && mid2.update@[j].0@ == c.path@ && mid2.update@[j].1@
                                    == c.new->0@;
                            assert(self.update@[j] == mid2.update@[j]);
                        }
                    } else {
                        if c.old is None {
                            if c.new is Some {
                                assert(self.create@[self.create@.len() - 1].0@ == c.path@);
                            }
                        } else if c.new is None {
                            assert(self.delete@[self.delete@.len() - 1]@ == c.path@);
                        } else {
                            assert(self.update@[self.update@.len() - 1].0@ == c.path@);
                        }
                    }
                }
                assert forall|d: Seq<u8>|
                    #[trigger] maps_to(self.mkdirs@, d, true) <==> exists|k: int|
                        0 <= k < i + 1 && (!((#[trigger] self.changes@[k]).old is Some && self.changes@[k].new is None))
                            && is_parent_dir(d, self.changes@[k].path@) by {
                    if exists|k: int|
                        0 <= k < i + 1 && (!((#[trigger] self.changes@[k]).old is Some && self.changes@[k].new is None))
                            && is_parent_dir(d, self.changes@[k].path@) {
                        let k = choose|k: int|
                            0 <= k < i + 1 && (!((#[trigger] self.changes@[k]).old is Some && self.changes@[k].new is None))
                                && is_parent_dir(d, self.changes@[k].path@);
                        if k < i {
                            assert(maps_to(mid.mkdirs@, d, true));
                        }
                    }
                }
                assert forall|d: Seq<u8>|
                    #[trigger] maps_to(self.rmdirs@, d, true) <==> exists|k: int|
                        0 <= k < i + 1 && (#[trigger] self.changes@[k]).old is Some && self.changes@[k].new is None
                            && is_parent_dir(d, self.changes@[k].path@) by {
                    if exists|k: int|
                        0 <= k < i + 1 && (#[trigger] self.changes@[k]).old is Some && self.changes@[k].new is None
                            && is_parent_dir(d, self.changes@[k].path@) {
                        let k = choose|k: int|
                            0 <= k < i + 1 && (#[trigger] self.changes@[k]).old is Some && self.changes@[k].new is None
                                && is_parent_dir(d, self.changes@[k].path@);
                        if k < i {
                            assert(maps_to(mid.rmdirs@, d, true));
                        }
                    }
                }
                assert forall|t2: ConflictType| keys_sorted(#[trigger] self.conflicts_of(t2)) by {
                    assert(self.conflicts_of(t2) == mid.conflicts_of(t2));
                }
                assert forall|t2: ConflictType, q: Seq<u8>| maps_to(self.conflicts_of(t2), q, false) implies false by {
                    assert(self.conflicts_of(t2) == mid.conflicts_of(t2));
                }
                assert forall|t2: ConflictType, q: Seq<u8>|
                    #[trigger] maps_to(self.conflicts_of(t2), q, true) <==> has_conflict(
                        self.changes@.subrange(0, i + 1),
                        t2,
                        q,
                        *idx,
                        *ws,
                        contents@,
                    ) by {
                    assert(self.conflicts_of(t2) == mid.conflicts_of(t2));
                }
            }
            i += 1;
        }
        proof {
            assert(self.changes@.subrange(0, n as int) =~= self.changes@);
        }
        if self.stale_files.len() == 0 && self.stale_directories.len() == 0 && self.untracked_overwritten.len() == 0
            && self.untracked_removed.len() == 0 {
            proof {
                assert forall|t: ConflictType, p: Seq<u8>| !has_conflict(old(self).changes@, t, p, *idx, *ws, contents@) by {
                    if has_conflict(old(self).changes@, t, p, *idx, *ws, contents@) {
                        assert(maps_to(self.conflicts_of(t), p, true));
                    }
                }
            }
            Ok(())
        } else {
            proof {
                let t = if self.stale_files.len() > 0 {
                    ConflictType::StaleFile
                } else if self.stale_directories.len() > 0 {
                    ConflictType::StaleDirectory
                } else if self.untracked_overwritten.len() > 0 {
                    ConflictType::UntrackedOverwritten
                } else {
                    ConflictType::UntrackedRemoved
                };
                let e = self.conflicts_of(t)[0];
                if !e.1 {
                    assert(maps_to(self.conflicts_of(t), e.0@, false));
                }
                assert(maps_to(self.conflicts_of(t), e.0@, true));
            }
            Err(())
        }
    }
}

/// Extending the changes looked at by one adds exactly that change's conflict.
pub proof fn lemma_has_conflict_step(
    changes: Seq<Change>,
    i: int,
    t: ConflictType,
    p: Seq<u8>,
    idx: Index,
    ws: Workspace,
    contents: Seq<(Vec<u8>, Vec<u8>)>,
)
    requires
        0 <= i < changes.len(),
    ensures
        has_conflict(changes.subrange(0, i + 1), t, p, idx, ws, contents) <==> (has_conflict(
            changes.subrange(0, i),
            t,
            p,
            idx,
            ws,
            contents,
        ) || conflict_spec(
            changes[i].path@,
            item_of(changes[i].old),
            item_of(changes[i].new),
            idx,
            ws,
            contents,
        ) == Some((t, p))),
{
    let a = changes.subrange(0, i + 1);
    let b = changes.subrange(0, i);
    if has_conflict(a, t, p, idx, ws, contents) {
        let k = choose|k: int|
            0 <= k < a.len() && conflict_spec(
                (#[trigger] a[k]).path@,
                item_of(a[k].old),
                item_of(a[k].new),
                idx,
                ws,
                contents,
            ) == Some((t, p));
        if k < i {
            assert(b[k] == a[k]);
        }
    }
    if has_conflict(b, t, p, idx, ws, contents) {
        let k = choose|k: int|
            0 <= k < b.len() && conflict_spec(
                (#[trigger] b[k]).path@,
                item_of(b[k].old),
                item_of(b[k].new),
                idx,
                ws,
                contents,
            ) == Some((t, p));
        assert(a[k] == b[k]);
    }
    if conflict_spec(changes[i].path@, item_of(changes[i].old), item_of(changes[i].new), idx, ws, contents) == Some((t, p)) {
        assert(a[i] == changes[i]);
    }
}

} // verus!

verus! {

/// The metadata recorded for `p` in `stats`, if any.
fn stat_for(stats: &Vec<(Vec<u8>, crate::index::Stat)>, p: &[u8]) -> (r: Option<crate::index::Stat>)
    ensures
        r is Some ==> exists|i: int| 0 <= i < stats@.len() && (#[trigger] stats@[i]).0@ == p@ && stats@[i].1 == r->0,
        r is None ==> !has_stat(stats@, p@),
{
    let mut i: usize = 0;
    while i < stats.len()
        invariant
            i <= stats@.len(),
            forall|k: int| 0 <= k < i ==> (#[trigger] stats@[k]).0@ != p@,
        decreases stats@.len() - i,
    {
        if compare_bytes(&stats[i].0, p) == 0 {
            return Some(stats[i].1);
        }
        i += 1;
    }
    None
}

/// Whether `stats` gives metadata for `p`.
pub open spec fn has_stat(stats: Seq<(Vec<u8>, crate::index::Stat)>, p: Seq<u8>) -> bool {
    exists|i: int| 0 <= i < stats.len() && (#[trigger] stats[i]).0@ == p
}

/// Whether the plan deletes `p`.
pub open spec fn deleted(m: Migration, p: Seq<u8>) -> bool {
    exists|j: int| 0 <= j < m.delete@.len() && (#[trigger] m.delete@[j])@ == p
}

/// Whether one of the first `n` written files is at `p`.
pub open spec fn written_at(w: Seq<(Vec<u8>, Entry)>, p: Seq<u8>, n: int) -> bool {
    exists|k: int| 0 <= k < n && (#[trigger] w[k]).0@ == p
}

/// The files that a plan writes: those created, then those updated, each with its new entry.
pub open spec fn written(m: Migration) -> Seq<(Vec<u8>, Entry)> {
    m.create@ + m.update@
}

/// Whether the `k`-th written file is staged with its new object id, or is superseded by
/// (or conflicts with) another of the first `n` written files.
pub open spec fn staged_as_planned(v: Seq<EntryView>, w: Seq<(Vec<u8>, Entry)>, k: int, n: int) -> bool {
    (exists|m: int| 0 <= m < v.len() && (#[trigger] v[m]).path == w[k].0@ && v[m].oid == w[k].1.oid@) || exists|k2: int|
        0 <= k2 < n && k2 != k && ((#[trigger] w[k2]).0@ == w[k].0@ || crate::index::paths_conflict(w[k].0@, w[k2].0@))
}

impl Migration {
    /// Brings the index in line with the applied plan: deleted paths leave it, and each created
    /// or updated file is staged with its new entry's object id and the metadata that `stats`
    /// gives for it. Fails with the first path that lacks metadata or a 20-byte object id, the
    /// index then holding only the removals.
    pub fn update_index(&self, index: &mut Index, stats: &Vec<(Vec<u8>, crate::index::Stat)>) -> (r: Result<(), Vec<u8>>)
        requires
            old(index).wf(),
        ensures
            final(index).wf(),
            crate::index::no_dir_conflicts(old(index).view_seq()) ==> crate::index::no_dir_conflicts(final(index).view_seq()),
            r is Ok ==> forall|k: int|
                0 <= k < written(*self).len() ==> #[trigger] staged_as_planned(
                    final(index).view_seq(),
                    written(*self),
                    k,
                    written(*self).len() as int,
                ),
            r is Ok ==> forall|e: EntryView|
                #[trigger] final(index).view_seq().contains(e) && deleted(*self, e.path) ==> written_at(
                    written(*self),
                    e.path,
                    written(*self).len() as int,
                ),
            r matches Err(p) ==> (exists|k: int|
                0 <= k < written(*self).len() && (#[trigger] written(*self)[k]).0@ == p@ && (!has_stat(stats@, p@)
                    || written(*self)[k].1.oid@.len() != 20 || p@.len() + 70 > usize::MAX)) || (p@.len() == 0
                && self.create@.len() + self.update@.len() > usize::MAX),
            (self.create@.len() + self.update@.len() <= usize::MAX && forall|k: int|
                0 <= k < written(*self).len() ==> has_stat(stats@, (#[trigger] written(*self)[k]).0@) && written(
                    *self,
                )[k].1.oid@.len() == 20 && written(*self)[k].0@.len() + 70 <= usize::MAX) ==> r is Ok,
    {
        let mut i: usize = 0;
        while i < self.delete.len()
            invariant
                index.wf(),
                i <= self.delete@.len(),
                crate::index::no_dir_conflicts(old(index).view_seq()) ==> crate::index::no_dir_conflicts(index.view_seq()),
                forall|e: EntryView|
                    #[trigger] index.view_seq().contains(e) ==> forall|q: int| 0 <= q < i ==> (#[trigger] self.delete@[q])@ != e.path,
            decreases self.delete@.len() - i,
        {
            let ghost before = index.view_seq();
            index.remove(&self.delete[i]);
            proof {
                assert forall|e: EntryView| #[trigger] index.view_seq().contains(e) implies forall|q: int|
                    0 <= q < i + 1 ==> (#[trigger] self.delete@[q])@ != e.path by {
                    assert(before.contains(e));
                }
                assert forall|a: int, b: int|
                    0 <= a < index.view_seq().len() && 0 <= b < index.view_seq().len() && crate::index::no_dir_conflicts(before)
                        implies !is_parent_dir(#[trigger] index.view_seq()[a].path, #[trigger] index.view_seq()[b].path) by {
                    assert(index.view_seq().contains(index.view_seq()[a]));
                    assert(index.view_seq().contains(index.view_seq()[b]));
                    let x = choose|x: int| 0 <= x < before.len() && before[x] == index.view_seq()[a];
                    let y = choose|y: int| 0 <= y < before.len() && before[y] == index.view_seq()[b];
                    assert(!is_parent_dir(before[x].path, before[y].path));
                }
            }
            i += 1;
        }
        let ghost w = written(*self);
        let nc = self.create.len();
        if self.update.len() > usize::MAX - nc {
            return Err(Vec::new());
        }
        let total = nc + self.update.len();
        let mut stat_list: Vec<crate::index::Stat> = Vec::new();
        let mut k: usize = 0;
        while k < total
            invariant
                index.wf(),
                crate::index::no_dir_conflicts(old(index).view_seq()) ==> crate::index::no_dir_conflicts(index.view_seq()),
                w == written(*self),
                nc == self.create@.len(),
                total == w.len(),
                k <= total,
                stat_list@.len() == k,
                forall|q: int| 0 <= q < k ==> (#[trigger] w[q]).1.oid@.len() == 20 && w[q].0@.len() + 70 <= usize::MAX,
                forall|e: EntryView|
                    #[trigger] index.view_seq().contains(e) ==> forall|q: int| 0 <= q < self.delete@.len() ==> (#[trigger] self.delete@[q])@ != e.path,
            decreases total - k,
        {
            let (path, entry) = if k < nc {
                (&self.create[k].0, &self.create[k].1)
            } else {
                (&self.update[k - nc].0, &self.update[k - nc].1)
            };
            assert(path@ == w[k as int].0@ && entry.oid@ == w[k as int].1.oid@);
            let st = match stat_for(stats, path) {
                Some(s) => s,
                None => {
                    assert(0 <= k < w.len() && w[k as int].0@ == path@ && !has_stat(stats@, path@));
                    return Err(copy_bytes(path));
                },
            };
            if entry.oid.len() != 20 || path.len() > usize::MAX - 70 {
                assert(0 <= k < w.len() && w[k as int].0@ == path@);
                return Err(copy_bytes(path));
            }
            stat_list.push(st);
            k += 1;
        }
        proof {
            assert forall|e: EntryView| #[trigger] index.view_seq().contains(e) && deleted(*self, e.path) implies written_at(w, e.path, 0) by {
                let q = choose|q: int| 0 <= q < self.delete@.len() && (#[trigger] self.delete@[q])@ == e.path;
            }
        }
        let mut j: usize = 0;
        while j < total
            invariant
                index.wf(),
                w == written(*self),
                nc == self.create@.len(),
                total == w.len(),
                stat_list@.len() == total,
                j <= total,
                forall|q: int| 0 <= q < total ==> (#[trigger] w[q]).1.oid@.len() == 20 && w[q].0@.len() + 70 <= usize::MAX,
                crate::index::no_dir_conflicts(old(index).view_seq()) ==> crate::index::no_dir_conflicts(index.view_seq()),
                forall|q: int| 0 <= q < j ==> #[trigger] staged_as_planned(index.view_seq(), w, q, j as int),
                forall|e: EntryView|
                    #[trigger] index.view_seq().contains(e) && deleted(*self, e.path) ==> written_at(w, e.path, j as int),
            decreases total - j,
        {
            let (path, entry) = if j < nc {
                (&self.create[j].0, &self.create[j].1)
            } else {
                (&self.update[j - nc].0, &self.update[j - nc].1)
            };
            assert(path@ == w[j as int].0@ && entry.oid@ == w[j as int].1.oid@);
            let st = stat_list[j];
            let ghost before_v = index.view_seq();
            let ps: &[u8] = path.as_slice();
            let os: &[u8] = entry.oid.as_slice();
            index.add(ps, os, &st);
            proof {
                let v = index.view_seq();
                let ne = crate::index::entry_of(path@, entry.oid@, st);
                assert(v.contains(ne));
                let wi = choose|wi: int| 0 <= wi < v.len() && v[wi] == ne;
                assert(v[wi].path == w[j as int].0@ && v[wi].oid == w[j as int].1.oid@);
                assert forall|e: EntryView| #[trigger] v.contains(e) && deleted(*self, e.path) implies written_at(w, e.path, j + 1) by {
                    if e == ne {
                        assert(w[j as int].0@ == e.path);
                    } else {
                        assert(before_v.contains(e));
                        if written_at(w, e.path, j as int) {
                            let k = choose|k: int| 0 <= k < j && (#[trigger] w[k]).0@ == e.path;
                            assert(0 <= k < j + 1);
                        }
                    }
                }
                assert forall|q: int| 0 <= q < j + 1 implies #[trigger] staged_as_planned(v, w, q, j + 1) by {
                    if q == j {
                        assert(v[wi].path == w[q].0@);
                    } else if exists|m: int| 0 <= m < before_v.len() && (#[trigger] before_v[m]).path == w[q].0@ && before_v[m].oid == w[q].1.oid@ {
                        let m = choose|m: int| 0 <= m < before_v.len() && (#[trigger] before_v[m]).path == w[q].0@ && before_v[m].oid == w[q].1.oid@;
                        if w[q].0@ == path@ || crate::index::paths_conflict(w[q].0@, path@) {
                            assert(0 <= j < j + 1 && j != q && (w[j as int].0@ == w[q].0@ || crate::index::paths_conflict(w[q].0@, w[j as int].0@)));
                        } else {
                            let e = before_v[m];
                            assert(before_v.contains(e));
                            assert(v.contains(e));
                            let w2 = choose|w2: int| 0 <= w2 < v.len() && v[w2] == e;
                            assert(v[w2].path == w[q].0@ && v[w2].oid == w[q].1.oid@);
                        }
                    } else {
                        assert(staged_as_planned(before_v, w, q, j as int));
                        let k2 = choose|k2: int|
                            0 <= k2 < j && k2 != q && ((#[trigger] w[k2]).0@ == w[q].0@ || crate::index::paths_conflict(w[q].0@, w[k2].0@));
                        assert(0 <= k2 < j + 1 && k2 != q);
                    }
                }
                crate::index::lemma_add_keeps_no_dir_conflicts(before_v, v, ne);
            }
            j += 1;
        }
        Ok(())
    }
}


} // verus!
