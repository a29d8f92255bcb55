use vstd::prelude::*;

use crate::codec::{compare_bytes, copy_bytes};
use crate::index::{is_parent_dir, is_parent_dir_exec, Index};
use crate::object::{framed, object_id, oid_of, ObjectKind};
use crate::status::{find_read, read_for};
use crate::workspace::Workspace;

verus! {

/// Why staging files failed.
#[derive(Debug, PartialEq, Eq)]
pub enum AddError {
    /// The index lock is held by another writer.
    LockHeld,
    /// A pathspec names nothing in the working tree.
    PathspecMiss { pathspec: Vec<u8> },
    /// A file could not be read.
    ReadDenied { path: Vec<u8> },
}

/// A blob to store: the object id and the framed form of the same contents.
pub open spec fn is_blob_pair(b: (Vec<u8>, Vec<u8>)) -> bool {
    exists|d: Seq<u8>| b.0@ == object_id(ObjectKind::Blob, d) && b.1@ == framed(ObjectKind::Blob, d)
}

/// Whether some pathspec covers the working-tree file at `p`.
pub open spec fn covered(ws: Workspace, specs: Seq<Vec<u8>>, p: Seq<u8>) -> bool {
    exists|s: int, i: int|
        0 <= s < specs.len() && 0 <= i < ws.items@.len() && !(#[trigger] ws.items@[i]).is_dir && covers(
            (#[trigger] specs[s])@,
            ws.items@[i].path@,
        ) && ws.items@[i].path@ == p
}

/// Whether `files` lists exactly the covered files (each covered file at least once).
pub open spec fn lists_covered(ws: Workspace, specs: Seq<Vec<u8>>, files: Seq<Vec<u8>>) -> bool {
    &&& forall|k: int| 0 <= k < files.len() ==> covered(ws, specs, (#[trigger] files[k])@)
    &&& forall|p: Seq<u8>| #[trigger] covered(ws, specs, p) ==> exists|k: int| 0 <= k < files.len() && (#[trigger] files[k])@ == p
}

/// Whether the index stages `p` with the id of the contents read for it.
pub open spec fn staged_with_contents(v: Seq<crate::index::EntryView>, contents: Seq<(Vec<u8>, Vec<u8>)>, p: Seq<u8>) -> bool {
    &&& read_for(contents, p) is Some
    &&& exists|k: int| 0 <= k < v.len() && (#[trigger] v[k]).path == p && v[k].oid == object_id(ObjectKind::Blob, read_for(contents, p)->0)
}

/// Whether index entry `e` was staged from one of the first `n` staged files, with the id of the
/// contents read for it.
pub open spec fn from_staged(
    e: crate::index::EntryView,
    paths: Seq<Seq<u8>>,
    contents: Seq<(Vec<u8>, Vec<u8>)>,
    n: int,
) -> bool {
    exists|k: int|
        0 <= k < n && e.path == #[trigger] paths[k] && e.oid == object_id(ObjectKind::Blob, read_for(contents, paths[k])->0)
}

/// Whether the file at position `k` of `paths` is staged with its contents, or conflicts with
/// another of the first `n` paths.
pub open spec fn settled(v: Seq<crate::index::EntryView>, contents: Seq<(Vec<u8>, Vec<u8>)>, paths: Seq<Seq<u8>>, k: int, n: int) -> bool {
    staged_with_contents(v, contents, paths[k]) || exists|k2: int| 0 <= k2 < n && crate::index::paths_conflict(paths[k], #[trigger] paths[k2])
}

/// Whether pathspec `spec` covers the working-tree file at `p`: `.` covers everything, a file
/// covers itself, a directory the files beneath it.
pub open spec fn covers(spec: Seq<u8>, p: Seq<u8>) -> bool {
    spec == seq![46u8] || p == spec || is_parent_dir(spec, p)
}

/// Whether `spec` covers some file of the working tree.
pub open spec fn matches_some(ws: Workspace, spec: Seq<u8>) -> bool {
    exists|i: int| 0 <= i < ws.items@.len() && !(#[trigger] ws.items@[i]).is_dir && covers(spec, ws.items@[i].path@)
}

/// Whether pathspec `spec` covers `p`.
pub fn covers_exec(spec: &[u8], p: &[u8]) -> (r: bool)
    ensures
        r == covers(spec@, p@),
{
    let dot = spec.len() == 1 && spec[0] == 46;
    if dot {
        assert(spec@ =~= seq![46u8]);
        return true;
    }
    proof {
        if spec@ == seq![46u8] {
            assert(spec@[0] == 46);
        }
    }
    compare_bytes(spec, p) == 0 || is_parent_dir_exec(spec, p)
}

/// The working-tree files that `spec` covers, in listing order.
pub fn list_files(ws: &Workspace, spec: &[u8]) -> (r: Vec<Vec<u8>>)
    ensures
        forall|k: int| 0 <= k < r@.len() ==> exists|i: int|
            0 <= i < ws.items@.len() && !(#[trigger] ws.items@[i]).is_dir && covers(spec@, ws.items@[i].path@) && ws.items@[i].path@
                == (#[trigger] r@[k])@,
        forall|i: int|
            0 <= i < ws.items@.len() && !(#[trigger] ws.items@[i]).is_dir && covers(spec@, ws.items@[i].path@) ==> exists|k: int|
                0 <= k < r@.len() && (#[trigger] r@[k])@ == ws.items@[i].path@,
        r@.len() == 0 <==> !matches_some(*ws, spec@),
{
    let mut out: Vec<Vec<u8>> = Vec::new();
    let mut i: usize = 0;
    while i < ws.items.len()
        invariant
            i <= ws.items@.len(),
            forall|k: int| 0 <= k < out@.len() ==> exists|j: int|
                0 <= j < ws.items@.len() && !(#[trigger] ws.items@[j]).is_dir && covers(spec@, ws.items@[j].path@) && ws.items@[j].path@
                    == (#[trigger] out@[k])@,
            forall|j: int|
                0 <= j < i && !(#[trigger] ws.items@[j]).is_dir && covers(spec@, ws.items@[j].path@) ==> exists|k: int|
                    0 <= k < out@.len() && (#[trigger] out@[k])@ == ws.items@[j].path@,
            out@.len() > 0 ==> matches_some(*ws, spec@),
        decreases ws.items@.len() - i,
    {
        let it = &ws.items[i];
        if !it.is_dir && covers_exec(spec, &it.path) {
            let ghost before = out@;
            out.push(copy_bytes(&it.path));
            proof {
                assert forall|k: int| 0 <= k < out@.len() implies exists|j: int|
                    0 <= j < ws.items@.len() && !(#[trigger] ws.items@[j]).is_dir && covers(spec@, ws.items@[j].path@) && ws.items@[j].path@
                        == (#[trigger] out@[k])@ by {
                    if k < before.len() {
                        assert(out@[k] == before[k]);
                    } else {
                        assert(ws.items@[i as int].path@ == out@[k]@);
                    }
                }
                assert forall|j: int|
                    0 <= j < i + 1 && !(#[trigger] ws.items@[j]).is_dir && covers(spec@, ws.items@[j].path@) implies exists|k: int|
                        0 <= k < out@.len() && (#[trigger] out@[k])@ == ws.items@[j].path@ by {
                    if j < i {
                        let k = choose|k: int| 0 <= k < before.len() && (#[trigger] before[k])@ == ws.items@[j].path@;
                        assert(out@[k] == before[k]);
                    } else {
                        assert(out@[out@.len() - 1]@ == ws.items@[j].path@);
                    }
                }
            }
        }
        i += 1;
    }
    proof {
        if matches_some(*ws, spec@) {
            let j = choose|j: int| 0 <= j < ws.items@.len() && !(#[trigger] ws.items@[j]).is_dir && covers(spec@, ws.items@[j].path@);
            assert(exists|k: int| 0 <= k < out@.len() && (#[trigger] out@[k])@ == ws.items@[j].path@);
        }
    }
    out
}

/// The files that `pathspecs` cover, pathspec by pathspec; refused with the first pathspec
/// that covers none.
pub fn collect_files(ws: &Workspace, pathspecs: &Vec<Vec<u8>>) -> (r: Result<Vec<Vec<u8>>, AddError>)
    ensures
        match r {
            Ok(files) => (forall|s: int| 0 <= s < pathspecs@.len() ==> matches_some(*ws, (#[trigger] pathspecs@[s])@))
                && lists_covered(*ws, pathspecs@, files@),
            Err(AddError::PathspecMiss { pathspec }) => exists|s: int|
                0 <= s < pathspecs@.len() && (#[trigger] pathspecs@[s])@ == pathspec@ && !matches_some(*ws, pathspec@),
            Err(_) => false,
        },
{
    let mut files: Vec<Vec<u8>> = Vec::new();
    let mut s: usize = 0;
    while s < pathspecs.len()
        invariant
            s <= pathspecs@.len(),
            forall|q: int| 0 <= q < s ==> matches_some(*ws, (#[trigger] pathspecs@[q])@),
            forall|k: int| 0 <= k < files@.len() ==> covered(*ws, pathspecs@, (#[trigger] files@[k])@),
            forall|q: int, i: int|
                0 <= q < s && 0 <= i < ws.items@.len() && !(#[trigger] ws.items@[i]).is_dir && covers((#[trigger] pathspecs@[q])@, ws.items@[i].path@)
                    ==> exists|k: int| 0 <= k < files@.len() && (#[trigger] files@[k])@ == ws.items@[i].path@,
        decreases pathspecs@.len() - s,
    {
        let found = list_files(ws, &pathspecs[s]);
        if found.len() == 0 {
            return Err(AddError::PathspecMiss { pathspec: copy_bytes(&pathspecs[s]) });
        }
        let ghost base = files@;
        let mut f: usize = 0;
        while f < found.len()
            invariant
                f <= found@.len(),
                files@.len() == base.len() + f,
                forall|k: int| 0 <= k < base.len() ==> files@[k] == base[k],
                forall|k: int| 0 <= k < f ==> (#[trigger] files@[base.len() + k])@ == found@[k]@,
            decreases found@.len() - f,
        {
            files.push(copy_bytes(&found[f]));
            f += 1;
        }
        proof {
            assert forall|k: int| 0 <= k < files@.len() implies covered(*ws, pathspecs@, (#[trigger] files@[k])@) by {
                if k >= base.len() {
                    let kk = k - base.len();
                    assert(files@[base.len() + kk] == files@[k]);
                    let i = choose|i: int|
                        0 <= i < ws.items@.len() && !(#[trigger] ws.items@[i]).is_dir && covers(pathspecs@[s as int]@, ws.items@[i].path@)
                            && ws.items@[i].path@ == (#[trigger] found@[kk])@;
                    assert(covers((pathspecs@[s as int])@, ws.items@[i].path@));
                } else {
                    assert(files@[k] == base[k]);
                }
            }
            assert forall|q: int, i: int|
                0 <= q < s + 1 && 0 <= i < ws.items@.len() && !(#[trigger] ws.items@[i]).is_dir && covers((#[trigger] pathspecs@[q])@, ws.items@[i].path@)
                    implies exists|k: int| 0 <= k < files@.len() && (#[trigger] files@[k])@ == ws.items@[i].path@ by {
                if q < s {
                    let k = choose|k: int| 0 <= k < base.len() && (#[trigger] base[k])@ == ws.items@[i].path@;
                    assert(files@[k] == base[k]);
                } else {
                    let kk = choose|kk: int| 0 <= kk < found@.len() && (#[trigger] found@[kk])@ == ws.items@[i].path@;
                    assert(files@[base.len() + kk]@ == found@[kk]@);
                }
            }
        }
        s += 1;
    }
    proof {
        assert(forall|q: int| 0 <= q < pathspecs@.len() ==> matches_some(*ws, (#[trigger] pathspecs@[q])@));
        assert forall|p: Seq<u8>| #[trigger] covered(*ws, pathspecs@, p) implies exists|k: int| 0 <= k < files@.len() && (#[trigger] files@[k])@ == p by {
            let (q, i) = choose|q: int, i: int|
                0 <= q < pathspecs@.len() && 0 <= i < ws.items@.len() && !(#[trigger] ws.items@[i]).is_dir && covers(
                    (#[trigger] pathspecs@[q])@,
                    ws.items@[i].path@,
                ) && ws.items@[i].path@ == p;
        }
        assert(lists_covered(*ws, pathspecs@, files@));
    }
    Ok(files)
}

/// Stages each file of `staged` with the id of its contents and the metadata beside it, and
/// gives the blobs to store. Afterwards each file is staged with its contents unless it
/// conflicts with another of them.
fn stage_files(
    index: &mut Index,
    staged: &Vec<(Vec<u8>, crate::index::Stat)>,
    contents: &Vec<(Vec<u8>, Vec<u8>)>,
) -> (r: Vec<(Vec<u8>, Vec<u8>)>)
    requires
        old(index).wf(),
        forall|k: int| 0 <= k < staged@.len() ==> read_for(contents@, (#[trigger] staged@[k]).0@) is Some
            && staged@[k].0@.len() + 70 <= usize::MAX,
        forall|a: int, b: int|
            0 <= a < contents@.len() && 0 <= b < contents@.len() && a != b ==> contents@[a].0@ != contents@[b].0@,
    ensures
        final(index).wf(),
        crate::index::no_dir_conflicts(old(index).view_seq()) ==> crate::index::no_dir_conflicts(final(index).view_seq()),
        forall|k: int| 0 <= k < r@.len() ==> is_blob_pair(#[trigger] r@[k]),
        forall|k: int|
            0 <= k < staged@.len() ==> #[trigger] settled(final(index).view_seq(), contents@, staged_paths(staged@), k, staged@.len() as int),
        forall|e: crate::index::EntryView|
            #[trigger] final(index).view_seq().contains(e) ==> old(index).view_seq().contains(e) || from_staged(
                e,
                staged_paths(staged@),
                contents@,
                staged@.len() as int,
            ),
{
    let ghost paths = staged_paths(staged@);
    let mut blobs: Vec<(Vec<u8>, Vec<u8>)> = Vec::new();
    let mut j: usize = 0;
    while j < staged.len()
        invariant
            index.wf(),
            j <= staged@.len(),
            paths == staged_paths(staged@),
            forall|k: int| 0 <= k < staged@.len() ==> read_for(contents@, (#[trigger] staged@[k]).0@) is Some
                && staged@[k].0@.len() + 70 <= usize::MAX,
            forall|a: int, b: int|
                0 <= a < contents@.len() && 0 <= b < contents@.len() && a != b ==> contents@[a].0@ != contents@[b].0@,
            crate::index::no_dir_conflicts(old(index).view_seq()) ==> crate::index::no_dir_conflicts(index.view_seq()),
            forall|k: int| 0 <= k < blobs@.len() ==> is_blob_pair(#[trigger] blobs@[k]),
            forall|k: int| 0 <= k < j ==> #[trigger] settled(index.view_seq(), contents@, paths, k, j as int),
            forall|e: crate::index::EntryView|
                #[trigger] index.view_seq().contains(e) ==> old(index).view_seq().contains(e) || from_staged(e, paths, contents@, j as int),
        decreases staged@.len() - j,
    {
        let path = &staged[j].0;
        let stat = staged[j].1;
        assert(read_for(contents@, staged@[j as int].0@) is Some);
        match find_read(contents, path) {
            Some(data) => {
                let oid = oid_of(ObjectKind::Blob, data);
                let ghost before_v = index.view_seq();
                let ps: &[u8] = path.as_slice();
                let os: &[u8] = oid.as_slice();
                index.add(ps, os, &stat);
                proof {
                    let v = index.view_seq();
                    assert(ps@ == path@ && os@ == oid@);
                    let ne = crate::index::entry_of(path@, oid@, stat);
                    assert(v.contains(ne));
                    let w = choose|w: int| 0 <= w < v.len() && v[w] == ne;
                    assert(v[w].path == paths[j as int] && v[w].oid == object_id(ObjectKind::Blob, read_for(contents@, path@)->0));
                    assert(staged_with_contents(v, contents@, paths[j as int]));
                    assert forall|e: crate::index::EntryView| #[trigger] v.contains(e) implies old(index).view_seq().contains(e)
                        || from_staged(e, paths, contents@, j + 1) by {
                        if e == ne {
                            assert(e.path == paths[j as int]);
                        } else {
                            assert(before_v.contains(e));
                            if from_staged(e, paths, contents@, j as int) {
                                let k = choose|k: int|
                                    0 <= k < j && e.path == #[trigger] paths[k] && e.oid == object_id(ObjectKind::Blob, read_for(contents@, paths[k])->0);
                                assert(0 <= k < j + 1);
                            }
                        }
                    }
                    assert forall|k: int| 0 <= k < j + 1 implies #[trigger] settled(v, contents@, paths, k, j + 1) by {
                        let pk = paths[k];
                        if k == j {
                            assert(staged_with_contents(v, contents@, pk));
                        } else if staged_with_contents(before_v, contents@, pk) {
                            let m = choose|m: int|
                                0 <= m < before_v.len() && (#[trigger] before_v[m]).path == pk && before_v[m].oid == object_id(
                                    ObjectKind::Blob,
                                    read_for(contents@, pk)->0,
                                );
                            if pk == path@ {
                                assert(staged_with_contents(v, contents@, pk));
                            } else if crate::index::paths_conflict(pk, path@) {
                                assert(crate::index::paths_conflict(paths[k], paths[j as int]));
                            } else {
                                let e = before_v[m];
                                assert(before_v.contains(e));
                                assert(v.contains(e) <==> (e == crate::index::entry_of(path@, oid@, stat) || (before_v.contains(e) && crate::index::kept_beside(e, path@))));
                                assert(v.contains(e));
                                let w2 = choose|w2: int| 0 <= w2 < v.len() && v[w2] == e;
                                assert(v[w2].path == pk);
                                assert(staged_with_contents(v, contents@, pk));
                            }
                        } else {
                            assert(settled(before_v, contents@, paths, k, j as int));
                            let k2 = choose|k2: int| 0 <= k2 < j && crate::index::paths_conflict(paths[k], #[trigger] paths[k2]);
                            assert(0 <= k2 < j + 1 && crate::index::paths_conflict(paths[k], paths[k2]));
                        }
                    }
                }
                let body = crate::object::content_of(ObjectKind::Blob, data);
                let ghost before = blobs@;
                blobs.push((oid, body));
                proof {
                    assert forall|k: int| 0 <= k < blobs@.len() implies is_blob_pair(#[trigger] blobs@[k]) by {
                        if k < before.len() {
                            assert(blobs@[k] == before[k]);
                        } else {
                            assert(blobs@[k].0@ == object_id(ObjectKind::Blob, data@) && blobs@[k].1@ == framed(ObjectKind::Blob, data@));
                        }
                    }
                }
            },
            None => {},
        }
        j += 1;
    }
    blobs
}

/// The paths of a list of staged files.
pub open spec fn staged_paths(s: Seq<(Vec<u8>, crate::index::Stat)>) -> Seq<Seq<u8>> {
    s.map_values(|x: (Vec<u8>, crate::index::Stat)| x.0@)
}

/// Stages the files that `pathspecs` cover. Refused when the index lock is held, when a
/// pathspec covers no file, or when a covered file is missing from `contents` (it could not be
/// read, or has no metadata); the index is then left as it was. Otherwise every covered file is staged with the id
/// of its contents, and the blobs to store are returned, as id and framed content.
pub fn add_command(
    index: &mut Index,
    ws: &Workspace,
    lock_held: bool,
    pathspecs: &Vec<Vec<u8>>,
    contents: &Vec<(Vec<u8>, Vec<u8>)>,
) -> (r: Result<Vec<(Vec<u8>, Vec<u8>)>, AddError>)
    requires
        old(index).wf(),
        forall|i: int, j: int|
            0 <= i < contents@.len() && 0 <= j < contents@.len() && i != j ==> contents@[i].0@ != contents@[j].0@,
    ensures
        final(index).wf(),
        lock_held ==> r == Err::<Vec<(Vec<u8>, Vec<u8>)>, AddError>(AddError::LockHeld),
        !lock_held && (exists|s: int| 0 <= s < pathspecs@.len() && !matches_some(*ws, (#[trigger] pathspecs@[s])@)) ==> r matches Err(
            AddError::PathspecMiss { .. },
        ),
        r matches Err(AddError::PathspecMiss { pathspec }) ==> exists|s: int|
            0 <= s < pathspecs@.len() && (#[trigger] pathspecs@[s])@ == pathspec@ && !matches_some(*ws, pathspec@),
        r matches Err(AddError::ReadDenied { path }) ==> covered(*ws, pathspecs@, path@) && (read_for(contents@, path@) is None
            || path@.len() + 70 > usize::MAX),
        r matches Err(AddError::LockHeld) ==> lock_held,
        (!lock_held && (forall|s: int| 0 <= s < pathspecs@.len() ==> matches_some(*ws, (#[trigger] pathspecs@[s])@)) && forall|p: Seq<u8>|
            #[trigger] covered(*ws, pathspecs@, p) ==> read_for(contents@, p) is Some && p.len() + 70 <= usize::MAX) ==> r is Ok,
        r is Err ==> *final(index) == *old(index),
        r is Ok ==> forall|e: crate::index::EntryView|
            #[trigger] final(index).view_seq().contains(e) ==> old(index).view_seq().contains(e) || (covered(*ws, pathspecs@, e.path)
                && e.oid == object_id(ObjectKind::Blob, read_for(contents@, e.path)->0)),
        r is Ok ==> !lock_held && forall|k: int|
            0 <= k < r->Ok_0@.len() ==> is_blob_pair(#[trigger] r->Ok_0@[k]),
        r is Ok ==> forall|p: Seq<u8>|
            #[trigger] covered(*ws, pathspecs@, p) ==> staged_with_contents(final(index).view_seq(), contents@, p) || exists|q: Seq<u8>|
                covered(*ws, pathspecs@, q) && crate::index::paths_conflict(p, q),
        crate::index::no_dir_conflicts(old(index).view_seq()) ==> crate::index::no_dir_conflicts(final(index).view_seq()),
{
    if lock_held {
        return Err(AddError::LockHeld);
    }
    let files = match collect_files(ws, pathspecs) {
        Ok(f) => f,
        Err(e) => return Err(e),
    };
    let mut staged: Vec<(Vec<u8>, crate::index::Stat)> = Vec::new();
    let mut i: usize = 0;
    while i < files.len()
        invariant
            !lock_held,
            index.wf(),
            *index == *old(index),
            i <= files@.len(),
            forall|q: int| 0 <= q < pathspecs@.len() ==> matches_some(*ws, (#[trigger] pathspecs@[q])@),
            lists_covered(*ws, pathspecs@, files@),
            staged@.len() == i,
            forall|k: int| 0 <= k < i ==> (#[trigger] staged@[k]).0@ == files@[k]@,
            forall|k: int| 0 <= k < staged@.len() ==> read_for(contents@, (#[trigger] staged@[k]).0@) is Some
                && staged@[k].0@.len() + 70 <= usize::MAX,
            forall|a: int, b: int|
                0 <= a < contents@.len() && 0 <= b < contents@.len() && a != b ==> contents@[a].0@ != contents@[b].0@,
        decreases files@.len() - i,
    {
        let path = &files[i];
        assert(covered(*ws, pathspecs@, files@[i as int]@));
        match find_read(contents, path) {
            Some(_) => {},
            None => {
                return Err(AddError::ReadDenied { path: copy_bytes(path) });
            },
        }
        let stat = match ws.stat_file(path) {
            Some((st, _)) => st,
            None => {
                proof {
                    assert(covered(*ws, pathspecs@, files@[i as int]@));
                    let (q, it) = choose|q: int, it: int|
                        0 <= q < pathspecs@.len() && 0 <= it < ws.items@.len() && !(#[trigger] ws.items@[it]).is_dir && covers(
                            (#[trigger] pathspecs@[q])@,
                            ws.items@[it].path@,
                        ) && ws.items@[it].path@ == files@[i as int]@;
                    assert(ws.items@[it].path@ == path@);
                }
                return Err(AddError::ReadDenied { path: copy_bytes(path) });
            },
        };
        if path.len() > usize::MAX - 70 {
            return Err(AddError::ReadDenied { path: copy_bytes(path) });
        }
        let ghost before = staged@;
        staged.push((copy_bytes(path), stat));
        proof {
            assert forall|k: int| 0 <= k < staged@.len() implies read_for(contents@, (#[trigger] staged@[k]).0@) is Some
                && staged@[k].0@.len() + 70 <= usize::MAX by {
                if k < before.len() {
                    assert(staged@[k] == before[k]);
                }
            }
            assert forall|k: int| 0 <= k < i + 1 implies (#[trigger] staged@[k]).0@ == files@[k]@ by {
                if k < before.len() {
                    assert(staged@[k] == before[k]);
                }
            }
        }
        i += 1;
    }
    let blobs = stage_files(index, &staged, contents);
    proof {
        let paths = staged_paths(staged@);
        let n = staged@.len() as int;
        assert forall|e: crate::index::EntryView| #[trigger] index.view_seq().contains(e) implies old(index).view_seq().contains(e)
            || (covered(*ws, pathspecs@, e.path) && e.oid == object_id(ObjectKind::Blob, read_for(contents@, e.path)->0)) by {
            if !old(index).view_seq().contains(e) {
                let k = choose|k: int|
                    0 <= k < n && e.path == #[trigger] paths[k] && e.oid == object_id(ObjectKind::Blob, read_for(contents@, paths[k])->0);
                assert(paths[k] == files@[k]@);
            }
        }
        assert forall|p: Seq<u8>|
            #[trigger] covered(*ws, pathspecs@, p) implies staged_with_contents(index.view_seq(), contents@, p) || exists|q: Seq<u8>|
                covered(*ws, pathspecs@, q) && crate::index::paths_conflict(p, q) by {
            let k = choose|k: int| 0 <= k < files@.len() && (#[trigger] files@[k])@ == p;
            assert(paths[k] == p);
            assert(settled(index.view_seq(), contents@, paths, k, n));
            if !staged_with_contents(index.view_seq(), contents@, p) {
                let k2 = choose|k2: int| 0 <= k2 < n && crate::index::paths_conflict(paths[k], #[trigger] paths[k2]);
                assert(paths[k2] == files@[k2]@);
                assert(covered(*ws, pathspecs@, files@[k2]@));
            }
        }
    }
    Ok(blobs)
}

} // verus!
