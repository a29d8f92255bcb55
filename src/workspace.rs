use vstd::prelude::*;

use crate::codec::{compare_bytes, copy_bytes, push_all};
use crate::index::{is_parent_dir, is_parent_dir_exec, tracked_in, Index, Stat};

verus! {

/// One file or directory of the working tree, by its path relative to the root.
#[derive(Debug)]
pub struct WorkItem {
    pub path: Vec<u8>,
    pub stat: Stat,
    pub is_dir: bool,
}

/// What the working tree holds: its root and every file and directory beneath it (the
/// repository's own directory left out).
#[derive(Debug)]
pub struct Workspace {
    pub root: Vec<u8>,
    pub items: Vec<WorkItem>,
}

/// Whether `path` is a file of the working tree that the index does not track, or a directory
/// holding, at any depth, such a file.
pub open spec fn trackable(ws: Workspace, idx: Index, path: Seq<u8>) -> bool {
    exists|i: int|
        0 <= i < ws.items@.len() && !(#[trigger] ws.items@[i]).is_dir && !tracked_in(
            idx.view_seq(),
            ws.items@[i].path@,
        ) && (ws.items@[i].path@ == path || (is_parent_dir(path, ws.items@[i].path@) && exists|j: int|
            0 <= j < ws.items@.len() && ws.items@[j].path@ == path && ws.items@[j].is_dir))
}

impl Workspace {
    /// An empty view of the working tree at `root`.
    pub fn new(root: &[u8]) -> (r: Workspace)
        ensures
            r.root@ == root@,
            r.items@.len() == 0,
    {
        Workspace { root: copy_bytes(root), items: Vec::new() }
    }

    /// Records a file or directory of the working tree.
    pub fn add_item(&mut self, path: &[u8], stat: Stat, is_dir: bool)
        ensures
            final(self).root@ == old(self).root@,
            final(self).items@.len() == old(self).items@.len() + 1,
            forall|i: int| 0 <= i < old(self).items@.len() ==> final(self).items@[i] == old(self).items@[i],
            final(self).items@.last().path@ == path@,
            final(self).items@.last().stat == stat,
            final(self).items@.last().is_dir == is_dir,
    {
        self.items.push(WorkItem { path: copy_bytes(path), stat, is_dir });
    }

    /// The path of `path` under the root: root, `/`, path.
    pub fn abs_path(&self, path: &[u8]) -> (r: Vec<u8>)
        ensures
            r@ == self.root@ + seq![47u8] + path@,
    {
        let mut r = copy_bytes(&self.root);
        r.push(47);
        push_all(&mut r, path);
        r
    }

    /// Position of the item at `path`, if the working tree has one.
    pub fn position(&self, path: &[u8]) -> (r: Option<usize>)
        ensures
            match r {
                Some(i) => i < self.items@.len() && self.items@[i as int].path@ == path@,
                None => forall|i: int| 0 <= i < self.items@.len() ==> (#[trigger] self.items@[i]).path@ != path@,
            },
    {
        let mut i: usize = 0;
        while i < self.items.len()
            invariant
                i <= self.items@.len(),
                forall|k: int| 0 <= k < i ==> (#[trigger] self.items@[k]).path@ != path@,
            decreases self.items@.len() - i,
        {
            if compare_bytes(&self.items[i].path, path) == 0 {
                return Some(i);
            }
            i += 1;
        }
        None
    }

    /// The metadata of `path`, and whether it is a directory, if the working tree has it.
    pub fn stat_file(&self, path: &[u8]) -> (r: Option<(Stat, bool)>)
        ensures
            match r {
                Some((s, d)) => exists|i: int|
                    0 <= i < self.items@.len() && (#[trigger] self.items@[i]).path@ == path@
                        && self.items@[i].stat == s && self.items@[i].is_dir == d,
                None => forall|i: int| 0 <= i < self.items@.len() ==> (#[trigger] self.items@[i]).path@ != path@,
            },
    {
        match self.position(path) {
            Some(i) => {
                let it = &self.items[i];
                Some((it.stat, it.is_dir))
            },
            None => None,
        }
    }

    /// Whether `path` is a directory of the working tree.
    pub fn is_dir(&self, path: &[u8]) -> (r: bool)
        ensures
            r == exists|i: int|
                0 <= i < self.items@.len() && (#[trigger] self.items@[i]).path@ == path@ && self.items@[i].is_dir,
    {
        let mut i: usize = 0;
        while i < self.items.len()
            invariant
                i <= self.items@.len(),
                forall|k: int| 0 <= k < i ==> !((#[trigger] self.items@[k]).path@ == path@ && self.items@[k].is_dir),
            decreases self.items@.len() - i,
        {
            if self.items[i].is_dir && compare_bytes(&self.items[i].path, path) == 0 {
                return true;
            }
            i += 1;
        }
        false
    }
}

/// Whether `path` can be tracked but is not: an untracked file, or a directory that holds one.
pub fn is_trackable(ws: &Workspace, idx: &Index, path: &[u8]) -> (r: bool)
    requires
        idx.wf(),
    ensures
        r == trackable(*ws, *idx, path@),
{
    let is_dir = ws.is_dir(path);
    let mut i: usize = 0;
    while i < ws.items.len()
        invariant
            idx.wf(),
            i <= ws.items@.len(),
            is_dir ==> exists|j: int|
                0 <= j < ws.items@.len() && (#[trigger] ws.items@[j]).path@ == path@ && ws.items@[j].is_dir,
            !is_dir ==> !exists|j: int|
                0 <= j < ws.items@.len() && ws.items@[j].path@ == path@ && ws.items@[j].is_dir,
            forall|k: int|
                0 <= k < i ==> !(!(#[trigger] ws.items@[k]).is_dir && !tracked_in(idx.view_seq(), ws.items@[k].path@)
                    && (ws.items@[k].path@ == path@ || (is_parent_dir(path@, ws.items@[k].path@) && is_dir))),
        decreases ws.items@.len() - i,
    {
        let it = &ws.items[i];
        if !it.is_dir && !idx.is_tracked(&it.path) {
            if compare_bytes(&it.path, path) == 0 || (is_dir && is_parent_dir_exec(path, &it.path)) {
                return true;
            }
        }
        i += 1;
    }
    false
}

} // verus!
