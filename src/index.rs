use vstd::prelude::*;

use crate::digest::{sha1, sha1_of};
use crate::codec::{
    lemma_be16_of_read16, lemma_be32_of_read32, lemma_be16_round_trip, lemma_be32_round_trip,
    be16, be32, bytes_lt, compare_bytes, copy_bytes, get_be16, get_be32, push_all, push_be16, push_be32,
    read16, read32, slice_to_vec, lemma_lt_transitive, lemma_lt_asymmetric,
};

verus! {

/// Mode of a regular file (`0o100644`).
pub const REGULAR_MODE: u32 = 33188;

/// Mode of an executable file (`0o100755`).
pub const EXECUTABLE_MODE: u32 = 33261;

/// Largest path length that the flags field records.
pub const MAX_PATH_SIZE: u16 = 4095;

/// The low 32 bits of an integer, as two's complement truncation gives them.
pub open spec fn low32(x: int) -> u32 {
    (x % 4294967296) as u32
}

/// The mode an index entry records for a file of the given permission bits.
pub open spec fn normal_mode(m: u32) -> u32 {
    if (m / 64) % 2 == 1 {
        EXECUTABLE_MODE
    } else {
        REGULAR_MODE
    }
}

/// The low 32 bits of a signed value.
pub fn truncate_i64(x: i64) -> (r: u32)
    ensures
        r == low32(x as int),
{
    if x >= 0 {
        ((x as u64) % 4294967296) as u32
    } else {
        let y: u64 = (-(x + 1)) as u64;
        (4294967295u64 - (y % 4294967296)) as u32
    }
}

/// The low 32 bits of an unsigned value.
pub fn truncate_u64(x: u64) -> (r: u32)
    ensures
        r == low32(x as int),
{
    (x % 4294967296) as u32
}

/// Index mode for a file whose permission bits are `m`: executable when the owner may execute it.
pub fn mode_for(m: u32) -> (r: u32)
    ensures
        r == normal_mode(m),
{
    if (m / 64) % 2 == 1 {
        EXECUTABLE_MODE
    } else {
        REGULAR_MODE
    }
}

/// File metadata as the file system reports it.
#[derive(Clone, Copy, Debug, PartialEq, Eq)]
pub struct Stat {
    pub ctime: i64,
    pub ctime_nsec: i64,
    pub mtime: i64,
    pub mtime_nsec: i64,
    pub dev: u64,
    pub ino: u64,
    pub mode: u32,
    pub uid: u32,
    pub gid: u32,
    pub size: u64,
}

/// An index entry as a mathematical value.
pub struct EntryView {
    pub ctime: i64,
    pub ctime_nsec: i64,
    pub mtime: i64,
    pub mtime_nsec: i64,
    pub dev: u64,
    pub ino: u64,
    pub uid: u32,
    pub gid: u32,
    pub size: u64,
    pub flags: u16,
    pub mode: u32,
    pub oid: Seq<u8>,
    pub path: Seq<u8>,
}

/// One staged file: its stat cache, mode, object id (20 raw bytes) and path.
#[derive(Debug)]
pub struct Entry {
    pub ctime: i64,
    pub ctime_nsec: i64,
    pub mtime: i64,
    pub mtime_nsec: i64,
    pub dev: u64,
    pub ino: u64,
    pub uid: u32,
    pub gid: u32,
    pub size: u64,
    pub flags: u16,
    pub mode: u32,
    pub oid: Vec<u8>,
    pub path: Vec<u8>,
}

impl View for Entry {
    type V = EntryView;

    open spec fn view(&self) -> EntryView {
        EntryView {
            ctime: self.ctime,
            ctime_nsec: self.ctime_nsec,
            mtime: self.mtime,
            mtime_nsec: self.mtime_nsec,
            dev: self.dev,
            ino: self.ino,
            uid: self.uid,
            gid: self.gid,
            size: self.size,
            flags: self.flags,
            mode: self.mode,
            oid: self.oid@,
            path: self.path@,
        }
    }
}

/// The flags field for a path: its length, clamped to the largest recordable one.
pub open spec fn path_flags(len: nat) -> u16 {
    if len < MAX_PATH_SIZE {
        len as u16
    } else {
        MAX_PATH_SIZE
    }
}

/// The entry that `add` records for a path, an object id and a file's metadata.
pub open spec fn entry_of(path: Seq<u8>, oid: Seq<u8>, s: Stat) -> EntryView {
    EntryView {
        ctime: s.ctime,
        ctime_nsec: s.ctime_nsec,
        mtime: s.mtime,
        mtime_nsec: s.mtime_nsec,
        dev: s.dev,
        ino: s.ino,
        uid: s.uid,
        gid: s.gid,
        size: s.size,
        flags: path_flags(path.len()),
        mode: normal_mode(s.mode),
        oid,
        path,
    }
}

/// `n` zero bytes.
pub open spec fn zeros(n: nat) -> Seq<u8> {
    Seq::new(n, |i: int| 0u8)
}

/// Number of NUL bytes after a path of length `n`: at least one, up to the next multiple of 8.
pub open spec fn pad_len(n: nat) -> nat {
    (8 - (62 + n) % 8) as nat
}

/// The fixed-size part of an entry's on-disk form: ten 32-bit fields, the object id, the flags.
#[verifier::opaque]
pub open spec fn entry_head(e: EntryView) -> Seq<u8> {
    be32(low32(e.ctime as int)) + be32(low32(e.ctime_nsec as int)) + be32(low32(e.mtime as int))
        + be32(low32(e.mtime_nsec as int)) + be32(low32(e.dev as int)) + be32(low32(e.ino as int))
        + be32(e.mode) + be32(e.uid) + be32(e.gid) + be32(low32(e.size as int)) + e.oid + be16(
        e.flags,
    )
}

/// The on-disk form of an entry: fixed part, path, NUL padding to a multiple of 8 bytes.
pub open spec fn entry_bytes(e: EntryView) -> Seq<u8> {
    entry_head(e) + e.path + zeros(pad_len(e.path.len()))
}

/// Whether `p` holds no NUL byte.
pub open spec fn no_nul(p: Seq<u8>) -> bool {
    forall|i: int| 0 <= i < p.len() ==> #[trigger] p[i] != 0
}

/// An entry that its on-disk form records exactly: 32-bit numbers, a 20-byte id, a path
/// without NUL.
pub open spec fn entry_exact(e: EntryView) -> bool {
    &&& 0 <= e.ctime < 4294967296
    &&& 0 <= e.ctime_nsec < 4294967296
    &&& 0 <= e.mtime < 4294967296
    &&& 0 <= e.mtime_nsec < 4294967296
    &&& e.dev < 4294967296
    &&& e.ino < 4294967296
    &&& e.size < 4294967296
    &&& e.oid.len() == 20
    &&& no_nul(e.path)
}

/// Whether the stat cache says the file may be unchanged: same mode, and same size unless
/// the recorded size is zero.
pub open spec fn stat_match_spec(e: EntryView, s: Stat) -> bool {
    e.mode == normal_mode(s.mode) && (e.size == 0 || e.size == s.size)
}

/// Whether all four recorded timestamps equal the file's.
pub open spec fn times_match_spec(e: EntryView, s: Stat) -> bool {
    e.ctime == s.ctime && e.ctime_nsec == s.ctime_nsec && e.mtime == s.mtime && e.mtime_nsec
        == s.mtime_nsec
}

/// The entry with its stat cache refreshed from `s`.
pub open spec fn with_stat(e: EntryView, s: Stat) -> EntryView {
    EntryView {
        ctime: s.ctime,
        ctime_nsec: s.ctime_nsec,
        mtime: s.mtime,
        mtime_nsec: s.mtime_nsec,
        dev: s.dev,
        ino: s.ino,
        uid: s.uid,
        gid: s.gid,
        size: s.size,
        mode: normal_mode(s.mode),
        ..e
    }
}

/// Where each field stands in the fixed part of an entry's on-disk form.
pub proof fn lemma_head_layout(e: EntryView)
    requires
        e.oid.len() == 20,
    ensures
        entry_head(e).len() == 62,
        entry_head(e).subrange(0, 4) == be32(low32(e.ctime as int)),
        entry_head(e).subrange(4, 8) == be32(low32(e.ctime_nsec as int)),
        entry_head(e).subrange(8, 12) == be32(low32(e.mtime as int)),
        entry_head(e).subrange(12, 16) == be32(low32(e.mtime_nsec as int)),
        entry_head(e).subrange(16, 20) == be32(low32(e.dev as int)),
        entry_head(e).subrange(20, 24) == be32(low32(e.ino as int)),
        entry_head(e).subrange(24, 28) == be32(e.mode),
        entry_head(e).subrange(28, 32) == be32(e.uid),
        entry_head(e).subrange(32, 36) == be32(e.gid),
        entry_head(e).subrange(36, 40) == be32(low32(e.size as int)),
        entry_head(e).subrange(40, 60) == e.oid,
        entry_head(e).subrange(60, 62) == be16(e.flags),
{
    reveal(entry_head);
    lemma_be32_round_trip(low32(e.ctime as int));
    lemma_be32_round_trip(low32(e.ctime_nsec as int));
    lemma_be32_round_trip(low32(e.mtime as int));
    lemma_be32_round_trip(low32(e.mtime_nsec as int));
    lemma_be32_round_trip(low32(e.dev as int));
    lemma_be32_round_trip(low32(e.ino as int));
    lemma_be32_round_trip(e.mode);
    lemma_be32_round_trip(e.uid);
    lemma_be32_round_trip(e.gid);
    lemma_be32_round_trip(low32(e.size as int));
    let h = entry_head(e);
    assert(h.subrange(0, 4) =~= be32(low32(e.ctime as int)));
    assert(h.subrange(4, 8) =~= be32(low32(e.ctime_nsec as int)));
    assert(h.subrange(8, 12) =~= be32(low32(e.mtime as int)));
    assert(h.subrange(12, 16) =~= be32(low32(e.mtime_nsec as int)));
    assert(h.subrange(16, 20) =~= be32(low32(e.dev as int)));
    assert(h.subrange(20, 24) =~= be32(low32(e.ino as int)));
    assert(h.subrange(24, 28) =~= be32(e.mode));
    assert(h.subrange(28, 32) =~= be32(e.uid));
    assert(h.subrange(32, 36) =~= be32(e.gid));
    assert(h.subrange(36, 40) =~= be32(low32(e.size as int)));
    assert(h.subrange(40, 60) =~= e.oid);
    assert(h.subrange(60, 62) =~= be16(e.flags));
}

/// A 62-byte string laid out field by field is the fixed part of that entry's on-disk form.
pub proof fn lemma_head_from_layout(e: EntryView, h: Seq<u8>)
    requires
        e.oid.len() == 20,
        h.len() == 62,
        h.subrange(0, 4) == be32(low32(e.ctime as int)),
        h.subrange(4, 8) == be32(low32(e.ctime_nsec as int)),
        h.subrange(8, 12) == be32(low32(e.mtime as int)),
        h.subrange(12, 16) == be32(low32(e.mtime_nsec as int)),
        h.subrange(16, 20) == be32(low32(e.dev as int)),
        h.subrange(20, 24) == be32(low32(e.ino as int)),
        h.subrange(24, 28) == be32(e.mode),
        h.subrange(28, 32) == be32(e.uid),
        h.subrange(32, 36) == be32(e.gid),
        h.subrange(36, 40) == be32(low32(e.size as int)),
        h.subrange(40, 60) == e.oid,
        h.subrange(60, 62) == be16(e.flags),
    ensures
        entry_head(e) == h,
{
    lemma_head_layout(e);
    let g = entry_head(e);
    assert forall|i: int| 0 <= i < 62 implies g[i] == h[i] by {
        if i < 4 {
            assert(g.subrange(0, 4)[i] == h.subrange(0, 4)[i]);
        } else if i < 8 {
            assert(g.subrange(4, 8)[i - 4] == h.subrange(4, 8)[i - 4]);
        } else if i < 12 {
            assert(g.subrange(8, 12)[i - 8] == h.subrange(8, 12)[i - 8]);
        } else if i < 16 {
            assert(g.subrange(12, 16)[i - 12] == h.subrange(12, 16)[i - 12]);
        } else if i < 20 {
            assert(g.subrange(16, 20)[i - 16] == h.subrange(16, 20)[i - 16]);
        } else if i < 24 {
            assert(g.subrange(20, 24)[i - 20] == h.subrange(20, 24)[i - 20]);
        } else if i < 28 {
            assert(g.subrange(24, 28)[i - 24] == h.subrange(24, 28)[i - 24]);
        } else if i < 32 {
            assert(g.subrange(28, 32)[i - 28] == h.subrange(28, 32)[i - 28]);
        } else if i < 36 {
            assert(g.subrange(32, 36)[i - 32] == h.subrange(32, 36)[i - 32]);
        } else if i < 40 {
            assert(g.subrange(36, 40)[i - 36] == h.subrange(36, 40)[i - 36]);
        } else if i < 60 {
            assert(g.subrange(40, 60)[i - 40] == h.subrange(40, 60)[i - 40]);
        } else {
            assert(g.subrange(60, 62)[i - 60] == h.subrange(60, 62)[i - 60]);
        }
    }
    assert(g =~= h);
}

/// Reading four bytes that are the big-endian form of `x` gives `x`.
pub proof fn lemma_read32_of(s: Seq<u8>, off: int, x: u32)
    requires
        0 <= off,
        off + 4 <= s.len(),
        s.subrange(off, off + 4) == be32(x),
    ensures
        read32(s, off) == x,
{
    lemma_be32_round_trip(x);
    assert(s[off] == s.subrange(off, off + 4)[0]);
    assert(s[off + 1] == s.subrange(off, off + 4)[1]);
    assert(s[off + 2] == s.subrange(off, off + 4)[2]);
    assert(s[off + 3] == s.subrange(off, off + 4)[3]);
}

/// Reading two bytes that are the big-endian form of `x` gives `x`.
pub proof fn lemma_read16_of(s: Seq<u8>, off: int, x: u16)
    requires
        0 <= off,
        off + 2 <= s.len(),
        s.subrange(off, off + 2) == be16(x),
    ensures
        read16(s, off) == x,
{
    lemma_be16_round_trip(x);
    assert(s[off] == s.subrange(off, off + 2)[0]);
    assert(s[off + 1] == s.subrange(off, off + 2)[1]);
}

/// The fixed part of an exact entry's on-disk form yields its fields back.
pub proof fn lemma_head_fields(e: EntryView)
    requires
        entry_exact(e),
    ensures
        entry_head(e).len() == 62,
        read32(entry_head(e), 0) == e.ctime,
        read32(entry_head(e), 4) == e.ctime_nsec,
        read32(entry_head(e), 8) == e.mtime,
        read32(entry_head(e), 12) == e.mtime_nsec,
        read32(entry_head(e), 16) == e.dev,
        read32(entry_head(e), 20) == e.ino,
        read32(entry_head(e), 24) == e.mode,
        read32(entry_head(e), 28) == e.uid,
        read32(entry_head(e), 32) == e.gid,
        read32(entry_head(e), 36) == e.size,
        entry_head(e).subrange(40, 60) == e.oid,
        read16(entry_head(e), 60) == e.flags,
{
    lemma_head_layout(e);
    let h = entry_head(e);
    lemma_read32_of(h, 0, low32(e.ctime as int));
    lemma_read32_of(h, 4, low32(e.ctime_nsec as int));
    lemma_read32_of(h, 8, low32(e.mtime as int));
    lemma_read32_of(h, 12, low32(e.mtime_nsec as int));
    lemma_read32_of(h, 16, low32(e.dev as int));
    lemma_read32_of(h, 20, low32(e.ino as int));
    lemma_read32_of(h, 24, e.mode);
    lemma_read32_of(h, 28, e.uid);
    lemma_read32_of(h, 32, e.gid);
    lemma_read32_of(h, 36, low32(e.size as int));
    lemma_read16_of(h, 60, e.flags);
}

/// Facts about the bytes of an exact entry that stands at `pos` in `data`.
pub proof fn lemma_entry_at(data: Seq<u8>, pos: int, e: EntryView)
    requires
        entry_exact(e),
        0 <= pos,
        pos + entry_bytes(e).len() <= data.len(),
        data.subrange(pos, pos + entry_bytes(e).len()) == entry_bytes(e),
    ensures
        entry_bytes(e).len() == 62 + e.path.len() + pad_len(e.path.len()),
        data.subrange(pos, pos + 62) == entry_head(e),
        forall|k: int| 0 <= k < e.path.len() ==> data[pos + 62 + k] == #[trigger] e.path[k],
        forall|j: int|
            pos + 62 + e.path.len() <= j < pos + entry_bytes(e).len() ==> #[trigger] data[j] == 0,
{
    lemma_head_fields(e);
    let b = entry_bytes(e);
    let n = e.path.len();
    assert(data.subrange(pos, pos + 62) =~= b.subrange(0, 62));
    assert(b.subrange(0, 62) =~= entry_head(e));
    assert forall|k: int| 0 <= k < n implies data[pos + 62 + k] == #[trigger] e.path[k] by {
        assert(data.subrange(pos, pos + b.len())[62 + k] == b[62 + k]);
    }
    assert forall|j: int| pos + 62 + n <= j < pos + b.len() implies #[trigger] data[j] == 0 by {
        assert(data.subrange(pos, pos + b.len())[j - pos] == b[j - pos]);
    }
}

/// Two exact entries whose on-disk forms both start a byte string are the same entry.
pub proof fn lemma_entry_unique(data: Seq<u8>, e1: EntryView, e2: EntryView)
    requires
        entry_exact(e1),
        entry_exact(e2),
        entry_bytes(e1).len() <= data.len(),
        entry_bytes(e2).len() <= data.len(),
        data.subrange(0, entry_bytes(e1).len() as int) == entry_bytes(e1),
        data.subrange(0, entry_bytes(e2).len() as int) == entry_bytes(e2),
    ensures
        e1 == e2,
{
    lemma_entry_at(data, 0, e1);
    lemma_entry_at(data, 0, e2);
    lemma_head_fields(e1);
    lemma_head_fields(e2);
    let n1 = e1.path.len() as int;
    let n2 = e2.path.len() as int;
    if n1 < n2 {
        assert(e2.path[n1] != 0);
        assert(data[0 + 62 + n1] == e2.path[n1]);
        assert(data[62 + n1] == 0);
    }
    if n2 < n1 {
        assert(e1.path[n2] != 0);
        assert(data[0 + 62 + n2] == e1.path[n2]);
        assert(data[62 + n2] == 0);
    }
    assert forall|k: int| 0 <= k < n1 implies e1.path[k] == e2.path[k] by {
        assert(data[0 + 62 + k] == e1.path[k]);
        assert(data[0 + 62 + k] == e2.path[k]);
    }
    assert(e1.path =~= e2.path);
    assert(entry_head(e1) == entry_head(e2));
    assert(e1.oid =~= e2.oid);
}

/// The bytes from which `parse_entry` builds an entry are that entry's on-disk form.
pub proof fn lemma_parsed_entry(d: Seq<u8>, p: int, j: int, end: int, e: EntryView)
    requires
        0 <= p,
        p + 62 <= j < end <= d.len(),
        end == j + pad_len((j - p - 62) as nat),
        e.ctime == read32(d, p),
        e.ctime_nsec == read32(d, p + 4),
        e.mtime == read32(d, p + 8),
        e.mtime_nsec == read32(d, p + 12),
        e.dev == read32(d, p + 16),
        e.ino == read32(d, p + 20),
        e.mode == read32(d, p + 24),
        e.uid == read32(d, p + 28),
        e.gid == read32(d, p + 32),
        e.size == read32(d, p + 36),
        e.oid == d.subrange(p + 40, p + 60),
        e.flags == read16(d, p + 60),
        e.path == d.subrange(p + 62, j),
        forall|k: int| p + 62 <= k < j ==> d[k] != 0,
        forall|q: int| j <= q < end ==> d[q] == 0,
    ensures
        entry_exact(e),
        entry_bytes(e) == d.subrange(p, end),
{
    lemma_be32_of_read32(d, p);
    lemma_be32_of_read32(d, p + 4);
    lemma_be32_of_read32(d, p + 8);
    lemma_be32_of_read32(d, p + 12);
    lemma_be32_of_read32(d, p + 16);
    lemma_be32_of_read32(d, p + 20);
    lemma_be32_of_read32(d, p + 24);
    lemma_be32_of_read32(d, p + 28);
    lemma_be32_of_read32(d, p + 32);
    lemma_be32_of_read32(d, p + 36);
    lemma_be16_of_read16(d, p + 60);
    let h = d.subrange(p, p + 62);
    assert(h.subrange(0, 4) =~= d.subrange(p + 0, p + 4));
    assert(h.subrange(4, 8) =~= d.subrange(p + 4, p + 8));
    assert(h.subrange(8, 12) =~= d.subrange(p + 8, p + 12));
    assert(h.subrange(12, 16) =~= d.subrange(p + 12, p + 16));
    assert(h.subrange(16, 20) =~= d.subrange(p + 16, p + 20));
    assert(h.subrange(20, 24) =~= d.subrange(p + 20, p + 24));
    assert(h.subrange(24, 28) =~= d.subrange(p + 24, p + 28));
    assert(h.subrange(28, 32) =~= d.subrange(p + 28, p + 32));
    assert(h.subrange(32, 36) =~= d.subrange(p + 32, p + 36));
    assert(h.subrange(36, 40) =~= d.subrange(p + 36, p + 40));
    assert(h.subrange(40, 60) =~= d.subrange(p + 40, p + 60));
    assert(h.subrange(60, 62) =~= d.subrange(p + 60, p + 62));
    lemma_head_from_layout(e, h);
    assert forall|k: int| 0 <= k < e.path.len() implies #[trigger] e.path[k] != 0 by {
        assert(e.path[k] == d[p + 62 + k]);
    }
    assert(d.subrange(j, end) =~= zeros(pad_len((j - p - 62) as nat)));
    assert(d.subrange(p, end) =~= h + d.subrange(p + 62, j) + d.subrange(j, end));
}

/// Parses the entry whose on-disk form starts at `pos` and ends at or before `limit`.
pub fn parse_entry(data: &[u8], pos: usize, limit: usize) -> (r: Option<(Entry, usize)>)
    requires
        pos <= limit <= data@.len(),
    ensures
        match r {
            Some((e, end)) => {
                &&& pos < end <= limit
                &&& entry_exact(e@)
                &&& end - pos == entry_bytes(e@).len()
                &&& data@.subrange(pos as int, end as int) == entry_bytes(e@)
            },
            None => forall|e: EntryView|
                entry_exact(e) && pos + entry_bytes(e).len() <= limit ==> data@.subrange(
                    pos as int,
                    pos + entry_bytes(e).len(),
                ) != entry_bytes(e),
        },
{
    if limit - pos < 64 {
        proof {
            assert forall|e: EntryView|
                entry_exact(e) && pos + entry_bytes(e).len() <= limit implies data@.subrange(
                pos as int,
                pos + entry_bytes(e).len(),
            ) != entry_bytes(e) by {
                lemma_head_fields(e);
            }
        }
        return None;
    }
    let start = pos + 62;
    let mut j: usize = start;
    while j < limit && data[j] != 0
        invariant
            start <= j <= limit,
            limit <= data@.len(),
            forall|k: int| start <= k < j ==> data@[k] != 0,
        decreases limit - j,
    {
        j += 1;
    }
    if j == limit {
        proof {
            assert forall|e: EntryView|
                entry_exact(e) && pos + entry_bytes(e).len() <= limit implies data@.subrange(
                pos as int,
                pos + entry_bytes(e).len(),
            ) != entry_bytes(e) by {
                if data@.subrange(pos as int, pos + entry_bytes(e).len()) == entry_bytes(e) {
                    lemma_entry_at(data@, pos as int, e);
                    let q = start + e.path.len();
                    assert(data@[q] == 0);
                }
            }
        }
        return None;
    }
    let n: usize = j - start;
    let pad: usize = 8 - (62 + n) % 8;
    if pad > limit - j {
        proof {
            assert forall|e: EntryView|
                entry_exact(e) && pos + entry_bytes(e).len() <= limit implies data@.subrange(
                pos as int,
                pos + entry_bytes(e).len(),
            ) != entry_bytes(e) by {
                if data@.subrange(pos as int, pos + entry_bytes(e).len()) == entry_bytes(e) {
                    lemma_entry_at(data@, pos as int, e);
                    if e.path.len() > n {
                        assert(e.path[n as int] != 0);
                        assert(data@[pos + 62 + n] == e.path[n as int]);
                    }
                    if e.path.len() < n {
                        assert(data@[start + e.path.len()] == 0);
                    }
                }
            }
        }
        return None;
    }
    let end: usize = j + pad;
    let mut k: usize = j;
    while k < end && data[k] == 0
        invariant
            j <= k <= end,
            end <= limit,
            limit <= data@.len(),
            forall|q: int| j <= q < k ==> data@[q] == 0,
        decreases end - k,
    {
        k += 1;
    }
    if k < end {
        proof {
            assert forall|e: EntryView|
                entry_exact(e) && pos + entry_bytes(e).len() <= limit implies data@.subrange(
                pos as int,
                pos + entry_bytes(e).len(),
            ) != entry_bytes(e) by {
                if data@.subrange(pos as int, pos + entry_bytes(e).len()) == entry_bytes(e) {
                    lemma_entry_at(data@, pos as int, e);
                    if e.path.len() > n {
                        assert(e.path[n as int] != 0);
                        assert(data@[pos + 62 + n] == e.path[n as int]);
                    }
                    if e.path.len() < n {
                        assert(data@[start + e.path.len()] == 0);
                    }
                    assert(data@[k as int] == 0);
                }
            }
        }
        return None;
    }
    let e = Entry {
        ctime: get_be32(data, pos) as i64,
        ctime_nsec: get_be32(data, pos + 4) as i64,
        mtime: get_be32(data, pos + 8) as i64,
        mtime_nsec: get_be32(data, pos + 12) as i64,
        dev: get_be32(data, pos + 16) as u64,
        ino: get_be32(data, pos + 20) as u64,
        mode: get_be32(data, pos + 24),
        uid: get_be32(data, pos + 28),
        gid: get_be32(data, pos + 32),
        size: get_be32(data, pos + 36) as u64,
        oid: slice_to_vec(data, pos + 40, pos + 60),
        flags: get_be16(data, pos + 60),
        path: slice_to_vec(data, start, j),
    };
    proof {
        lemma_parsed_entry(data@, pos as int, j as int, end as int, e@);
    }
    Some((e, end))
}

impl Entry {
    /// The entry for `path` holding object `oid`, with the stat cache taken from `stat`.
    pub fn new(path: &[u8], oid: &[u8], stat: &Stat) -> (r: Entry)
        ensures
            r@ == entry_of(path@, oid@, *stat),
    {
        let flags: u16 = if path.len() < MAX_PATH_SIZE as usize {
            path.len() as u16
        } else {
            MAX_PATH_SIZE
        };
        Entry {
            ctime: stat.ctime,
            ctime_nsec: stat.ctime_nsec,
            mtime: stat.mtime,
            mtime_nsec: stat.mtime_nsec,
            dev: stat.dev,
            ino: stat.ino,
            uid: stat.uid,
            gid: stat.gid,
            size: stat.size,
            flags,
            mode: mode_for(stat.mode),
            oid: copy_bytes(oid),
            path: copy_bytes(path),
        }
    }

    /// A copy of this entry.
    pub fn duplicate(&self) -> (r: Entry)
        ensures
            r@ == self@,
    {
        Entry {
            ctime: self.ctime,
            ctime_nsec: self.ctime_nsec,
            mtime: self.mtime,
            mtime_nsec: self.mtime_nsec,
            dev: self.dev,
            ino: self.ino,
            uid: self.uid,
            gid: self.gid,
            size: self.size,
            flags: self.flags,
            mode: self.mode,
            oid: copy_bytes(&self.oid),
            path: copy_bytes(&self.path),
        }
    }

    /// Same mode, and same size unless the recorded size is zero.
    pub fn stat_match(&self, stat: &Stat) -> (r: bool)
        ensures
            r == stat_match_spec(self@, *stat),
    {
        self.mode == mode_for(stat.mode) && (self.size == 0 || self.size == stat.size)
    }

    /// All four timestamps equal.
    pub fn times_match(&self, stat: &Stat) -> (r: bool)
        ensures
            r == times_match_spec(self@, *stat),
    {
        self.ctime == stat.ctime && self.ctime_nsec == stat.ctime_nsec && self.mtime == stat.mtime
            && self.mtime_nsec == stat.mtime_nsec
    }

    /// Refreshes the stat cache from `stat`; object id, path and flags stay.
    pub fn update_stat(&mut self, stat: &Stat)
        ensures
            final(self)@ == with_stat(old(self)@, *stat),
    {
        self.ctime = stat.ctime;
        self.ctime_nsec = stat.ctime_nsec;
        self.mtime = stat.mtime;
        self.mtime_nsec = stat.mtime_nsec;
        self.dev = stat.dev;
        self.ino = stat.ino;
        self.mode = mode_for(stat.mode);
        self.uid = stat.uid;
        self.gid = stat.gid;
        self.size = stat.size;
    }

    /// The on-disk form of this entry.
    pub fn to_bytes(&self) -> (r: Vec<u8>)
        requires
            self.oid@.len() == 20,
            self.path@.len() + 70 <= usize::MAX,
        ensures
            r@ == entry_bytes(self@),
    {
        let mut b: Vec<u8> = Vec::new();
        push_be32(&mut b, truncate_i64(self.ctime));
        push_be32(&mut b, truncate_i64(self.ctime_nsec));
        push_be32(&mut b, truncate_i64(self.mtime));
        push_be32(&mut b, truncate_i64(self.mtime_nsec));
        push_be32(&mut b, truncate_u64(self.dev));
        push_be32(&mut b, truncate_u64(self.ino));
        push_be32(&mut b, self.mode);
        push_be32(&mut b, self.uid);
        push_be32(&mut b, self.gid);
        push_be32(&mut b, truncate_u64(self.size));
        push_all(&mut b, &self.oid);
        push_be16(&mut b, self.flags);
        proof {
            reveal(entry_head);
        }
        assert(b@ == entry_head(self@));
        push_all(&mut b, &self.path);
        let pad: usize = 8 - (62 + self.path.len()) % 8;
        let ghost before = b@;
        let mut k: usize = 0;
        while k < pad
            invariant
                k <= pad,
                b@ == before + zeros(k as nat),
            decreases pad - k,
        {
            b.push(0);
            k += 1;
            assert(b@ =~= before + zeros(k as nat));
        }
        b
    }
}

} // verus!

verus! {

/// `d` is a strict ancestor directory of `p`: a proper prefix of it followed by `/`.
pub open spec fn is_parent_dir(d: Seq<u8>, p: Seq<u8>) -> bool {
    d.len() < p.len() && p.subrange(0, d.len() as int) == d && p[d.len() as int] == 47
}

/// Whether two paths cannot both be entries: one is an ancestor directory of the other.
pub open spec fn paths_conflict(a: Seq<u8>, b: Seq<u8>) -> bool {
    is_parent_dir(a, b) || is_parent_dir(b, a)
}

/// The views of a list of entries.
pub open spec fn view_entries(v: Seq<Entry>) -> Seq<EntryView> {
    v.map_values(|e: Entry| e@)
}

/// Entries in strictly increasing path order, so no path occurs twice.
pub open spec fn sorted_paths(s: Seq<EntryView>) -> bool {
    forall|i: int, j: int| 0 <= i < j < s.len() ==> bytes_lt(s[i].path, s[j].path)
}

/// No entry's path is an ancestor directory of another's.
pub open spec fn no_dir_conflicts(s: Seq<EntryView>) -> bool {
    forall|i: int, j: int|
        0 <= i < s.len() && 0 <= j < s.len() ==> !is_parent_dir(#[trigger] s[i].path, #[trigger] s[j].path)
}

/// Whether an entry survives the addition of `path`: it neither is that path nor conflicts with it.
pub open spec fn kept_beside(e: EntryView, path: Seq<u8>) -> bool {
    e.path != path && !paths_conflict(e.path, path)
}

/// Whether `path` is an entry, or an ancestor directory of one.
pub open spec fn tracked_in(s: Seq<EntryView>, path: Seq<u8>) -> bool {
    exists|i: int| 0 <= i < s.len() && (s[i].path == path || is_parent_dir(path, s[i].path))
}

/// Adding an entry and discarding every entry that conflicts with it keeps ancestor
/// directories and their contents from both being entries.
pub proof fn lemma_add_keeps_no_dir_conflicts(
    before: Seq<EntryView>,
    after: Seq<EntryView>,
    e: EntryView,
)
    requires
        forall|x: EntryView|
            after.contains(x) <==> (x == e || (before.contains(x) && kept_beside(x, e.path))),
    ensures
        no_dir_conflicts(before) ==> no_dir_conflicts(after),
{
    if no_dir_conflicts(before) {
        assert forall|i: int, j: int|
            0 <= i < after.len() && 0 <= j < after.len() implies !is_parent_dir(
            #[trigger] after[i].path,
            #[trigger] after[j].path,
        ) by {
            assert(after.contains(after[i]));
            assert(after.contains(after[j]));
            if after[i] != e && after[j] != e {
                let a = choose|a: int| 0 <= a < before.len() && before[a] == after[i];
                let b = choose|b: int| 0 <= b < before.len() && before[b] == after[j];
                assert(!is_parent_dir(before[a].path, before[b].path));
            }
        }
    }
}

/// The staging area: entries sorted by path, and whether they changed since loading.
pub struct Index {
    pub entries: Vec<Entry>,
    pub changed: bool,
}

impl Index {
    pub open spec fn view_seq(&self) -> Seq<EntryView> {
        view_entries(self.entries@)
    }

    /// Entries sorted by path, each with a 20-byte object id and a path that fits the format.
    pub open spec fn wf(&self) -> bool {
        &&& sorted_paths(self.view_seq())
        &&& forall|i: int|
            0 <= i < self.entries@.len() ==> (#[trigger] self.entries@[i]).oid@.len() == 20
                && self.entries@[i].path@.len() + 70 <= usize::MAX
    }

    /// An empty index.
    pub fn new() -> (r: Index)
        ensures
            r.wf(),
            r.view_seq() == Seq::<EntryView>::empty(),
            no_dir_conflicts(r.view_seq()),
            !r.changed,
    {
        let r = Index { entries: Vec::new(), changed: false };
        assert(r.view_seq() =~= Seq::<EntryView>::empty());
        r
    }

    /// Stages `path` with object `oid` and metadata `stat`. An entry for the same path is
    /// replaced; entries that are ancestor directories of `path`, or that lie beneath it,
    /// are discarded.
    pub fn add(&mut self, path: &[u8], oid: &[u8], stat: &Stat)
        requires
            old(self).wf(),
            oid@.len() == 20,
            path@.len() + 70 <= usize::MAX,
        ensures
            final(self).wf(),
            final(self).changed,
            forall|e: EntryView|
                #[trigger] final(self).view_seq().contains(e) <==> (e == entry_of(path@, oid@, *stat) || (old(
                    self,
                ).view_seq().contains(e) && kept_beside(e, path@))),
            no_dir_conflicts(old(self).view_seq()) ==> no_dir_conflicts(final(self).view_seq()),
    {
        let new_entry = Entry::new(path, oid, stat);
        let ghost ne = new_entry@;
        let ghost old_v = self.view_seq();
        let n = self.entries.len();
        let mut out: Vec<Entry> = Vec::new();
        let mut placed = false;
        let mut i: usize = 0;
        while i < n
            invariant
                n == self.entries@.len(),
                old_v == self.view_seq(),
                old(self).wf(),
                *old(self) == *self,
                ne == entry_of(path@, oid@, *stat),
                new_entry@ == ne,
                oid@.len() == 20,
                path@.len() + 70 <= usize::MAX,
                i <= n,
                sorted_paths(view_entries(out@)),
                forall|a: int|
                    0 <= a < out@.len() ==> (#[trigger] out@[a]).oid@.len() == 20
                        && out@[a].path@.len() + 70 <= usize::MAX,
                forall|a: int, m: int|
                    0 <= a < out@.len() && i <= m < n ==> bytes_lt(
                        (#[trigger] out@[a]).path@,
                        (#[trigger] old_v[m]).path,
                    ),
                !placed ==> forall|a: int|
                    0 <= a < out@.len() ==> bytes_lt((#[trigger] out@[a]).path@, path@),
                placed ==> view_entries(out@).contains(ne),
                forall|a: int|
                    0 <= a < out@.len() ==> ((#[trigger] out@[a])@ == ne || (old_v.contains(
                        out@[a]@,
                    ) && kept_beside(out@[a]@, path@))),
                forall|m: int|
                    0 <= m < i && kept_beside(#[trigger] old_v[m], path@) ==> view_entries(
                        out@,
                    ).contains(old_v[m]),
            decreases n - i,
        {
            let cur = &self.entries[i];
            let c = compare_bytes(&cur.path, path);
            assert(old_v[i as int] == cur@);
            if c > 0 && !placed {
                let ghost before = out@;
                out.push(new_entry.duplicate());
                placed = true;
                proof {
                    assert(out@[out@.len() - 1]@ == ne);
                    assert forall|a: int| 0 <= a < out@.len() implies (#[trigger] out@[a]).oid@.len() == 20
                        && out@[a].path@.len() + 70 <= usize::MAX by {
                        if a < before.len() {
                            assert(out@[a] == before[a]);
                        }
                    }
                    assert(view_entries(out@)[out@.len() - 1] == ne);
                    assert forall|m: int|
                        0 <= m < i && kept_beside(#[trigger] old_v[m], path@) implies view_entries(
                        out@,
                    ).contains(old_v[m]) by {
                        let w = choose|w: int|
                            0 <= w < before.len() && view_entries(before)[w] == old_v[m];
                        assert(view_entries(out@)[w] == old_v[m]);
                    }
                    assert forall|a: int, b: int|
                        0 <= a < b < out@.len() implies bytes_lt(
                        view_entries(out@)[a].path,
                        view_entries(out@)[b].path,
                    ) by {
                        if b < before.len() {
                            assert(view_entries(before)[a] == view_entries(out@)[a]);
                            assert(view_entries(before)[b] == view_entries(out@)[b]);
                        }
                    }
                    assert forall|a: int, m: int|
                        0 <= a < out@.len() && i <= m < n implies bytes_lt(
                        (#[trigger] out@[a]).path@,
                        (#[trigger] old_v[m]).path,
                    ) by {
                        if a == out@.len() - 1 {
                            if m > i {
                                lemma_lt_transitive(path@, old_v[i as int].path, old_v[m].path);
                            }
                        }
                    }
                }
            }
            if c != 0 && !is_parent_dir_exec(&cur.path, path) && !is_parent_dir_exec(path, &cur.path) {
                let ghost before = out@;
                out.push(cur.duplicate());
                proof {
                    assert(self.entries@[i as int].oid@.len() == 20);
                    assert forall|a: int| 0 <= a < out@.len() implies (#[trigger] out@[a]).oid@.len() == 20
                        && out@[a].path@.len() + 70 <= usize::MAX by {
                        if a < before.len() {
                            assert(out@[a] == before[a]);
                        }
                    }
                    assert(kept_beside(cur@, path@));
                    assert(view_entries(out@)[out@.len() - 1] == cur@);
                    assert(old_v.contains(cur@));
                    assert forall|m: int|
                        0 <= m <= i && kept_beside(#[trigger] old_v[m], path@) implies view_entries(
                        out@,
                    ).contains(old_v[m]) by {
                        if m < i {
                            let w = choose|w: int|
                                0 <= w < before.len() && view_entries(before)[w] == old_v[m];
                            assert(view_entries(out@)[w] == old_v[m]);
                        }
                    }
                    if placed {
                        let w = choose|w: int| 0 <= w < before.len() && view_entries(before)[w] == ne;
                        assert(view_entries(out@)[w] == ne);
                    }
                    assert forall|a: int, b: int|
                        0 <= a < b < out@.len() implies bytes_lt(
                        view_entries(out@)[a].path,
                        view_entries(out@)[b].path,
                    ) by {
                        if b < before.len() {
                            assert(view_entries(before)[a] == view_entries(out@)[a]);
                            assert(view_entries(before)[b] == view_entries(out@)[b]);
                        } else {
                            assert(out@[a] == before[a]);
                        }
                    }
                    assert forall|a: int, m: int|
                        0 <= a < out@.len() && i + 1 <= m < n implies bytes_lt(
                        (#[trigger] out@[a]).path@,
                        (#[trigger] old_v[m]).path,
                    ) by {
                        if a == out@.len() - 1 {
                        } else {
                            assert(out@[a] == before[a]);
                        }
                    }
                }
            } else {
                proof {
                    assert forall|a: int, m: int|
                        0 <= a < out@.len() && i + 1 <= m < n implies bytes_lt(
                        (#[trigger] out@[a]).path@,
                        (#[trigger] old_v[m]).path,
                    ) by {
                    }
                    if !placed {
                        assert(c <= 0);
                        assert forall|a: int| 0 <= a < out@.len() implies bytes_lt(
                            (#[trigger] out@[a]).path@,
                            path@,
                        ) by {
                        }
                    }
                }
            }
            proof {
                if !placed {
                    assert forall|a: int| 0 <= a < out@.len() implies bytes_lt(
                        (#[trigger] out@[a]).path@,
                        path@,
                    ) by {
                        if c < 0 && a == out@.len() - 1 {
                        }
                    }
                }
            }
            i += 1;
        }
        if !placed {
            let ghost before = out@;
            out.push(new_entry);
            proof {
                assert(out@[out@.len() - 1]@ == ne);
                assert forall|a: int| 0 <= a < out@.len() implies (#[trigger] out@[a]).oid@.len() == 20
                    && out@[a].path@.len() + 70 <= usize::MAX by {
                    if a < before.len() {
                        assert(out@[a] == before[a]);
                    }
                }
                assert(view_entries(out@)[out@.len() - 1] == ne);
                assert forall|m: int|
                    0 <= m < n && kept_beside(#[trigger] old_v[m], path@) implies view_entries(
                    out@,
                ).contains(old_v[m]) by {
                    let w = choose|w: int|
                        0 <= w < before.len() && view_entries(before)[w] == old_v[m];
                    assert(view_entries(out@)[w] == old_v[m]);
                }
                assert forall|a: int, b: int|
                    0 <= a < b < out@.len() implies bytes_lt(
                    view_entries(out@)[a].path,
                    view_entries(out@)[b].path,
                ) by {
                    if b < before.len() {
                        assert(view_entries(before)[a] == view_entries(out@)[a]);
                        assert(view_entries(before)[b] == view_entries(out@)[b]);
                    }
                }
            }
        }
        self.entries = out;
        self.changed = true;
        proof {
            let fv = self.view_seq();
            assert forall|e: EntryView|
                fv.contains(e) <==> (e == ne || (old_v.contains(e) && kept_beside(e, path@))) by {
                if fv.contains(e) {
                    let a = choose|a: int| 0 <= a < fv.len() && fv[a] == e;
                    assert(self.entries@[a]@ == e);
                }
                if old_v.contains(e) && kept_beside(e, path@) {
                    let m = choose|m: int| 0 <= m < old_v.len() && old_v[m] == e;
                    assert(kept_beside(old_v[m], path@));
                }
            }
            lemma_add_keeps_no_dir_conflicts(old_v, fv, ne);
        }
    }

    /// Position of the entry for `path`, if there is one.
    pub fn position(&self, path: &[u8]) -> (r: Option<usize>)
        requires
            self.wf(),
        ensures
            match r {
                Some(i) => i < self.entries@.len() && self.entries@[i as int].path@ == path@,
                None => forall|i: int|
                    0 <= i < self.entries@.len() ==> (#[trigger] self.entries@[i]).path@ != path@,
            },
    {
        let mut i: usize = 0;
        while i < self.entries.len()
            invariant
                i <= self.entries@.len(),
                forall|k: int| 0 <= k < i ==> (#[trigger] self.entries@[k]).path@ != path@,
            decreases self.entries@.len() - i,
        {
            if compare_bytes(&self.entries[i].path, path) == 0 {
                return Some(i);
            }
            i += 1;
        }
        None
    }

    /// Whether `path` is itself an entry.
    pub fn is_tracked_path(&self, path: &[u8]) -> (r: bool)
        requires
            self.wf(),
        ensures
            r == exists|i: int| 0 <= i < self.entries@.len() && (#[trigger] self.entries@[i]).path@ == path@,
    {
        match self.position(path) {
            Some(i) => {
                assert(self.entries@[i as int].path@ == path@);
                true
            },
            None => false,
        }
    }

    /// The entry for `path`, if there is one.
    pub fn entry_for_path(&self, path: &[u8]) -> (r: Option<&Entry>)
        requires
            self.wf(),
        ensures
            match r {
                Some(e) => e.path@ == path@ && exists|i: int| 0 <= i < self.entries@.len() && (#[trigger] self.entries@[i])@ == e@,
                None => forall|i: int|
                    0 <= i < self.entries@.len() ==> (#[trigger] self.entries@[i]).path@ != path@,
            },
    {
        match self.position(path) {
            Some(i) => {
                let e = &self.entries[i];
                assert(self.entries@[i as int]@ == e@);
                Some(e)
            },
            None => None,
        }
    }

    /// Whether `path` is an entry or an ancestor directory of one.
    pub fn is_tracked(&self, path: &[u8]) -> (r: bool)
        requires
            self.wf(),
        ensures
            r == tracked_in(self.view_seq(), path@),
    {
        let mut i: usize = 0;
        while i < self.entries.len()
            invariant
                i <= self.entries@.len(),
                forall|k: int|
                    0 <= k < i ==> !((#[trigger] self.view_seq()[k]).path == path@ || is_parent_dir(
                        path@,
                        self.view_seq()[k].path,
                    )),
            decreases self.entries@.len() - i,
        {
            let p = &self.entries[i].path;
            if compare_bytes(p, path) == 0 || is_parent_dir_exec(path, p) {
                assert(self.view_seq()[i as int].path == p@);
                return true;
            }
            i += 1;
        }
        false
    }
}

/// Whether `d` is a strict ancestor directory of `p`.
pub fn is_parent_dir_exec(d: &[u8], p: &[u8]) -> (r: bool)
    ensures
        r == is_parent_dir(d@, p@),
{
    if d.len() >= p.len() {
        return false;
    }
    let mut i: usize = 0;
    while i < d.len()
        invariant
            i <= d@.len() < p@.len(),
            forall|k: int| 0 <= k < i ==> d@[k] == p@[k],
        decreases d@.len() - i,
    {
        if d[i] != p[i] {
            assert(p@.subrange(0, d@.len() as int)[i as int] != d@[i as int]);
            return false;
        }
        i += 1;
    }
    assert(p@.subrange(0, d@.len() as int) =~= d@);
    p[d.len()] == 47
}

} // verus!

verus! {

/// The on-disk forms of a list of entries, one after another.
pub open spec fn entries_bytes(es: Seq<EntryView>) -> Seq<u8>
    decreases es.len(),
{
    if es.len() == 0 {
        Seq::<u8>::empty()
    } else {
        entries_bytes(es.drop_last()) + entry_bytes(es.last())
    }
}

/// The signature that opens an index file: `DIRC`.
pub open spec fn signature() -> Seq<u8> {
    seq![68u8, 73u8, 82u8, 67u8]
}

/// An index file without its checksum: signature, version 2, entry count, entries.
pub open spec fn index_body(es: Seq<EntryView>) -> Seq<u8> {
    signature() + be32(2) + be32(es.len() as u32) + entries_bytes(es)
}

/// `data` is the index file of `es`: its body, then the SHA-1 of that body.
pub open spec fn is_index_file(data: Seq<u8>, es: Seq<EntryView>) -> bool {
    &&& data.len() >= 20
    &&& data.subrange(0, data.len() - 20) == index_body(es)
    &&& data.subrange(data.len() - 20, data.len() as int) == sha1_of(
        data.subrange(0, data.len() - 20),
    )
}

/// Entries that an index file can hold and give back exactly.
pub open spec fn storable(es: Seq<EntryView>) -> bool {
    &&& es.len() < 4294967296
    &&& sorted_paths(es)
    &&& forall|i: int| 0 <= i < es.len() ==> entry_exact(#[trigger] es[i])
}

/// Why an index file was refused.
#[derive(Clone, Copy, Debug, PartialEq, Eq)]
pub enum IndexError {
    /// Fewer bytes than a header and a checksum.
    TooShort,
    /// The file does not start with `DIRC`.
    BadSignature,
    /// The version is not 2.
    BadVersion,
    /// The trailing 20 bytes are not the SHA-1 of what precedes them.
    ChecksumMismatch,
    /// The entries do not decode to path-sorted entries of the stated count.
    BadEntries,
}

pub proof fn lemma_entries_bytes_push(es: Seq<EntryView>, e: EntryView)
    ensures
        entries_bytes(es.push(e)) == entries_bytes(es) + entry_bytes(e),
{
    assert(es.push(e).drop_last() =~= es);
}

/// The entries of a prefix of a list are a prefix of the list's entries, followed by the next
/// entry's on-disk form.
pub proof fn lemma_entries_prefix(es: Seq<EntryView>, k: int)
    requires
        0 <= k < es.len(),
    ensures
        entries_bytes(es.subrange(0, k)).len() + entry_bytes(es[k]).len() <= entries_bytes(
            es,
        ).len(),
        entries_bytes(es).subrange(0, entries_bytes(es.subrange(0, k)).len() as int) == entries_bytes(
            es.subrange(0, k),
        ),
        entries_bytes(es).subrange(
            entries_bytes(es.subrange(0, k)).len() as int,
            (entries_bytes(es.subrange(0, k)).len() + entry_bytes(es[k]).len()) as int,
        ) == entry_bytes(es[k]),
    decreases es.len(),
{
    let a = entries_bytes(es.subrange(0, k));
    let b = entry_bytes(es[k]);
    if k == es.len() - 1 {
        assert(es.drop_last() =~= es.subrange(0, k));
        assert(entries_bytes(es).subrange(0, a.len() as int) =~= a);
        assert(entries_bytes(es).subrange(a.len() as int, (a.len() + b.len()) as int) =~= b);
    } else {
        let d = es.drop_last();
        lemma_entries_prefix(d, k);
        assert(d.subrange(0, k) =~= es.subrange(0, k));
        assert(d[k] == es[k]);
        let full = entries_bytes(es);
        assert(full == entries_bytes(d) + entry_bytes(es.last()));
        assert(full.subrange(0, a.len() as int) =~= entries_bytes(d).subrange(0, a.len() as int));
        assert(full.subrange(a.len() as int, (a.len() + b.len()) as int) =~= entries_bytes(d).subrange(
            a.len() as int,
            (a.len() + b.len()) as int,
        ));
    }
}

/// An index file reads back as the entries it was written from: `serialize` gives an index
/// file of the entries, `load` accepts exactly the index files of storable entry lists (whose
/// trailing 20 bytes are the SHA-1 of the bytes before them), and no two storable lists share
/// an index file.
pub proof fn lemma_index_round_trip(data: Seq<u8>, a: Seq<EntryView>, b: Seq<EntryView>)
    requires
        storable(a),
        storable(b),
        is_index_file(data, a),
        is_index_file(data, b),
    ensures
        a == b,
{
    lemma_be32_round_trip(2);
    lemma_be32_round_trip(a.len() as u32);
    lemma_be32_round_trip(b.len() as u32);
    let body = data.subrange(0, data.len() - 20);
    assert(body.subrange(8, 12) =~= be32(a.len() as u32));
    assert(body.subrange(8, 12) =~= be32(b.len() as u32));
    lemma_read32_of(body, 8, a.len() as u32);
    lemma_read32_of(body, 8, b.len() as u32);
    assert(a.len() == b.len());
    let ea = entries_bytes(a);
    let eb = entries_bytes(b);
    let pa = signature() + be32(2) + be32(a.len() as u32);
    let pb = signature() + be32(2) + be32(b.len() as u32);
    assert(pa.len() == 12 && pb.len() == 12);
    assert(body == pa + ea);
    assert(body == pb + eb);
    assert(body.subrange(12, body.len() as int) =~= ea);
    assert(body.subrange(12, body.len() as int) =~= eb);
    assert forall|k: int| 0 <= k < a.len() implies a[k] == b[k] by {
        lemma_entries_same_up_to(a, b, k);
        assert(a.subrange(0, k + 1)[k] == a[k]);
        assert(b.subrange(0, k + 1)[k] == b[k]);
    }
    assert(a =~= b);
}

/// Two storable lists with the same entry bytes agree on every entry up to `k`.
pub proof fn lemma_entries_same_up_to(a: Seq<EntryView>, b: Seq<EntryView>, k: int)
    requires
        storable(a),
        storable(b),
        a.len() == b.len(),
        entries_bytes(a) == entries_bytes(b),
        0 <= k < a.len(),
    ensures
        a.subrange(0, k + 1) == b.subrange(0, k + 1),
    decreases k,
{
    if k > 0 {
        lemma_entries_same_up_to(a, b, k - 1);
    }
    assert(a.subrange(0, k) =~= b.subrange(0, k)) by {
        if k > 0 {
            assert(a.subrange(0, k) =~= a.subrange(0, k - 1 + 1));
        }
    }
    lemma_entries_prefix(a, k);
    lemma_entries_prefix(b, k);
    let off = entries_bytes(a.subrange(0, k)).len() as int;
    let full = entries_bytes(a);
    let rest = full.subrange(off, full.len() as int);
    assert(rest.subrange(0, entry_bytes(a[k]).len() as int) =~= full.subrange(
        off,
        off + entry_bytes(a[k]).len(),
    ));
    assert(rest.subrange(0, entry_bytes(b[k]).len() as int) =~= full.subrange(
        off,
        off + entry_bytes(b[k]).len(),
    ));
    lemma_entry_unique(rest, a[k], b[k]);
    assert(a.subrange(0, k + 1) =~= b.subrange(0, k + 1)) by {
        assert(a.subrange(0, k + 1) =~= a.subrange(0, k).push(a[k]));
        assert(b.subrange(0, k + 1) =~= b.subrange(0, k).push(b[k]));
    }
}

} // verus!

verus! {

impl Index {
    /// The index file of these entries: header, entries in path order, SHA-1 trailer.
    pub fn serialize(&self) -> (r: Vec<u8>)
        requires
            self.wf(),
            self.entries@.len() < 4294967296,
        ensures
            is_index_file(r@, self.view_seq()),
    {
        let mut b: Vec<u8> = Vec::new();
        b.push(68);
        b.push(73);
        b.push(82);
        b.push(67);
        push_be32(&mut b, 2);
        push_be32(&mut b, self.entries.len() as u32);
        let ghost head = b@;
        assert(head =~= signature() + be32(2) + be32(self.entries@.len() as u32));
        let mut i: usize = 0;
        while i < self.entries.len()
            invariant
                self.wf(),
                i <= self.entries@.len(),
                b@ == head + entries_bytes(self.view_seq().subrange(0, i as int)),
            decreases self.entries@.len() - i,
        {
            let eb = self.entries[i].to_bytes();
            push_all(&mut b, &eb);
            proof {
                let v = self.view_seq();
                assert(v.subrange(0, i + 1) =~= v.subrange(0, i as int).push(v[i as int]));
                lemma_entries_bytes_push(v.subrange(0, i as int), v[i as int]);
            }
            i += 1;
        }
        assert(self.view_seq().subrange(0, i as int) =~= self.view_seq());
        let sum = sha1(&b);
        let ghost body = b@;
        push_all(&mut b, &sum);
        assert(b@.subrange(0, b@.len() - 20) =~= body);
        assert(b@.subrange(b@.len() - 20, b@.len() as int) =~= sum@);
        b
    }

    /// Reads an index file. Succeeds exactly on the index files of storable entry lists,
    /// and gives those entries back.
    #[verifier::spinoff_prover]
    pub fn load(data: &[u8]) -> (r: Result<Index, IndexError>)
        ensures
            match r {
                Ok(idx) => {
                    &&& idx.wf()
                    &&& !idx.changed
                    &&& storable(idx.view_seq())
                    &&& is_index_file(data@, idx.view_seq())
                },
                Err(IndexError::TooShort) => data@.len() < 32,
                Err(IndexError::BadSignature) => data@.len() >= 32 && data@.subrange(0, 4)
                    != signature(),
                Err(IndexError::BadVersion) => data@.len() >= 32 && data@.subrange(0, 4)
                    == signature() && read32(data@, 4) != 2,
                Err(IndexError::ChecksumMismatch) => data@.len() >= 32 && data@.subrange(0, 4)
                    == signature() && read32(data@, 4) == 2 && data@.subrange(
                    data@.len() - 20,
                    data@.len() as int,
                ) != sha1_of(data@.subrange(0, data@.len() - 20)),
                Err(IndexError::BadEntries) => data@.len() >= 32 && data@.subrange(0, 4)
                    == signature() && read32(data@, 4) == 2 && !exists|es: Seq<EntryView>|
                    storable(es) && is_index_file(data@, es),
            },
    {
        if data.len() < 32 {
            return Err(IndexError::TooShort);
        }
        if !(data[0] == 68 && data[1] == 73 && data[2] == 82 && data[3] == 67) {
            assert(data@.subrange(0, 4) != signature()) by {
                if data@.subrange(0, 4) == signature() {
                    assert(data@.subrange(0, 4)[0] == data@[0]);
                    assert(data@.subrange(0, 4)[1] == data@[1]);
                    assert(data@.subrange(0, 4)[2] == data@[2]);
                    assert(data@.subrange(0, 4)[3] == data@[3]);
                }
            }
            return Err(IndexError::BadSignature);
        }
        assert(data@.subrange(0, 4) =~= signature());
        if get_be32(data, 4) != 2 {
            return Err(IndexError::BadVersion);
        }
        let limit = data.len() - 20;
        let body = slice_to_vec(data, 0, limit);
        let sum = sha1(&body);
        let mut q: usize = 0;
        while q < 20 && sum[q] == data[limit + q]
            invariant
                q <= 20,
                limit + 20 == data@.len(),
                limit + 20 <= usize::MAX,
                sum@.len() == 20,
                forall|t: int| 0 <= t < q ==> sum@[t] == data@[limit + t],
            decreases 20 - q,
        {
            q += 1;
        }
        if q < 20 {
            assert(data@.subrange(limit as int, data@.len() as int)[q as int] != sum@[q as int]);
            return Err(IndexError::ChecksumMismatch);
        }
        assert(data@.subrange(limit as int, data@.len() as int) =~= sum@);
        let count = get_be32(data, 8);
        let ghost has_w = exists|es: Seq<EntryView>| storable(es) && is_index_file(data@, es);
        let ghost w = choose|es: Seq<EntryView>| storable(es) && is_index_file(data@, es);
        proof {
            if has_w {
                lemma_be32_round_trip(2);
                lemma_be32_round_trip(w.len() as u32);
                let pw = signature() + be32(2) + be32(w.len() as u32);
                assert(pw.len() == 12);
                assert(body@ == pw + entries_bytes(w));
                assert(body@.subrange(8, 12) =~= be32(w.len() as u32));
                lemma_read32_of(body@, 8, w.len() as u32);
                assert(body@.subrange(12, body@.len() as int) =~= entries_bytes(w));
            }
        }
        let mut out: Vec<Entry> = Vec::new();
        let mut pos: usize = 12;
        let mut k: u32 = 0;
        while k < count
            invariant
                limit + 20 == data@.len(),
                limit + 20 <= usize::MAX,
                data@.len() >= 32,
                data@.subrange(0, 4) == signature(),
                read32(data@, 4) == 2,
                has_w == exists|es: Seq<EntryView>| storable(es) && is_index_file(data@, es),
                body@ == data@.subrange(0, limit as int),
                12 <= pos <= limit,
                k <= count,
                out@.len() == k,
                count == read32(data@, 8),
                storable(view_entries(out@)),
                forall|a: int|
                    0 <= a < out@.len() ==> (#[trigger] out@[a]).oid@.len() == 20
                        && out@[a].path@.len() + 70 <= usize::MAX,
                body@.subrange(12, pos as int) == entries_bytes(view_entries(out@)),
                has_w ==> storable(w) && is_index_file(data@, w) && w.len() == count
                    && body@.subrange(12, body@.len() as int) == entries_bytes(w)
                    && view_entries(out@) == w.subrange(0, k as int),
            decreases count - k,
        {
            let parsed = parse_entry(data, pos, limit);
            proof {
                if has_w {
                    lemma_entries_prefix(w, k as int);
                    let off = entries_bytes(w.subrange(0, k as int)).len();
                    let eb = entries_bytes(w);
                    assert(off == pos - 12);
                    assert(data@.subrange(pos as int, pos + entry_bytes(w[k as int]).len()) =~= eb.subrange(
                        off as int,
                        (off + entry_bytes(w[k as int]).len()) as int,
                    ));
                }
            }
            match parsed {
                None => {
                    assert(!has_w);
                    return Err(IndexError::BadEntries);
                },
                Some((e, end)) => {
                    proof {
                        if has_w {
                            let ek = w[k as int];
                            let tail = data@.subrange(pos as int, limit as int);
                            assert(tail.subrange(0, entry_bytes(ek).len() as int) =~= data@.subrange(
                                pos as int,
                                pos + entry_bytes(ek).len(),
                            ));
                            assert(tail.subrange(0, entry_bytes(e@).len() as int) =~= data@.subrange(
                                pos as int,
                                end as int,
                            ));
                            lemma_entry_unique(tail, ek, e@);
                        }
                    }
                    if out.len() > 0 {
                        let last = out.len() - 1;
                        if compare_bytes(&out[last].path, &e.path) >= 0 {
                            proof {
                                if has_w {
                                    assert(view_entries(out@)[last as int] == w[last as int]);
                                    assert(bytes_lt(w[last as int].path, w[k as int].path));
                                    lemma_lt_asymmetric(w[last as int].path, w[k as int].path);
                                }
                            }
                            return Err(IndexError::BadEntries);
                        }
                    }
                    let ghost before = out@;
                    let ghost ev = e@;
                    proof {
                        lemma_head_layout(ev);
                        assert(ev.path.len() + 70 <= usize::MAX);
                    }
                    out.push(e);
                    proof {
                        let vb = view_entries(before);
                        let vo = view_entries(out@);
                        assert(vo =~= vb.push(ev));
                        lemma_entries_bytes_push(vb, ev);
                        assert(body@.subrange(12, end as int) =~= body@.subrange(12, pos as int)
                            + data@.subrange(pos as int, end as int));
                        assert forall|a: int, b: int| 0 <= a < b < vo.len() implies bytes_lt(
                            vo[a].path,
                            vo[b].path,
                        ) by {
                            if b == vo.len() - 1 && a < b - 1 {
                                lemma_lt_transitive(vo[a].path, vo[b - 1].path, vo[b].path);
                            }
                        }
                        assert forall|a: int| 0 <= a < out@.len() implies (#[trigger] out@[a]).oid@.len() == 20
                            && out@[a].path@.len() + 70 <= usize::MAX by {
                            if a < before.len() {
                                assert(out@[a] == before[a]);
                            } else {
                                assert(out@[a]@ == ev);
                            }
                        }
                        if has_w {
                            assert(w.subrange(0, k + 1) =~= w.subrange(0, k as int).push(w[k as int]));
                        }
                    }
                    pos = end;
                    k += 1;
                },
            }
        }
        if pos != limit {
            proof {
                if has_w {
                    assert(w.subrange(0, k as int) =~= w);
                }
            }
            return Err(IndexError::BadEntries);
        }
        let idx = Index { entries: out, changed: false };
        proof {
            let v = idx.view_seq();
            lemma_be32_round_trip(2);
            lemma_be32_round_trip(count);
            assert(data@.subrange(0, 12) =~= signature() + data@.subrange(4, 8) + data@.subrange(8, 12));
            lemma_be32_of_read32(data@, 4);
            lemma_be32_of_read32(data@, 8);
            assert(v.len() == count);
            assert(body@ =~= body@.subrange(0, 12) + body@.subrange(12, pos as int));
            assert(body@.subrange(0, 12) =~= data@.subrange(0, 12));
            assert(body@ =~= index_body(v));
        }
        Ok(idx)
    }
}

} // verus!

verus! {

impl Index {
    /// Refreshes the stat cache of the entry for `path` from `stat`, and marks the index changed.
    /// Other entries, and that entry's path and object id, stay.
    pub fn update_entry_stat(&mut self, path: &[u8], stat: &Stat)
        requires
            old(self).wf(),
        ensures
            final(self).wf(),
            final(self).changed,
            final(self).view_seq().len() == old(self).view_seq().len(),
            forall|i: int|
                0 <= i < old(self).view_seq().len() ==> #[trigger] final(self).view_seq()[i] == if old(
                    self,
                ).view_seq()[i].path == path@ {
                    with_stat(old(self).view_seq()[i], *stat)
                } else {
                    old(self).view_seq()[i]
                },
    {
        let ghost old_v = self.view_seq();
        match self.position(path) {
            Some(i) => {
                let mut e = self.entries[i].duplicate();
                e.update_stat(stat);
                self.entries.set(i, e);
                proof {
                    let v = self.view_seq();
                    assert forall|k: int| 0 <= k < old_v.len() && k != i implies v[k] == old_v[k] by {
                    }
                    assert forall|k: int| 0 <= k < old_v.len() && k != i implies old_v[k].path != path@ by {
                        if k < i {
                            lemma_lt_asymmetric(old_v[k].path, old_v[i as int].path);
                        } else {
                            lemma_lt_asymmetric(old_v[i as int].path, old_v[k].path);
                        }
                    }
                    assert forall|a: int, b: int| 0 <= a < b < v.len() implies bytes_lt(
                        v[a].path,
                        v[b].path,
                    ) by {
                        assert(old_v[a].path == v[a].path);
                        assert(old_v[b].path == v[b].path);
                    }
                    assert forall|k: int| 0 <= k < self.entries@.len() implies (#[trigger] self.entries@[k]).oid@.len()
                        == 20 && self.entries@[k].path@.len() + 70 <= usize::MAX by {
                        assert(self.entries@[k].oid@ == v[k].oid);
                        assert(old_v[k].oid == old(self).entries@[k].oid@);
                    }
                }
            },
            None => {},
        }
        self.changed = true;
    }

    /// Removes the entry for `path`, if there is one, and marks the index changed.
    pub fn remove(&mut self, path: &[u8])
        requires
            old(self).wf(),
        ensures
            final(self).wf(),
            final(self).changed,
            forall|e: EntryView|
                final(self).view_seq().contains(e) <==> (old(self).view_seq().contains(e) && e.path
                    != path@),
    {
        let ghost old_v = self.view_seq();
        match self.position(path) {
            Some(i) => {
                let ghost before = self.entries@;
                self.entries.remove(i);
                self.changed = true;
                proof {
                    let v = self.view_seq();
                    assert forall|k: int| 0 <= k < v.len() implies #[trigger] v[k] == if k < i {
                        old_v[k]
                    } else {
                        old_v[k + 1]
                    } by {}
                    assert forall|a: int, b: int| 0 <= a < b < v.len() implies bytes_lt(
                        v[a].path,
                        v[b].path,
                    ) by {
                        let oa = if a < i { a } else { a + 1 };
                        let ob = if b < i { b } else { b + 1 };
                        assert(v[a] == old_v[oa] && v[b] == old_v[ob]);
                    }
                    assert forall|e: EntryView| v.contains(e) <==> (old_v.contains(e) && e.path != path@) by {
                        if v.contains(e) {
                            let k = choose|k: int| 0 <= k < v.len() && v[k] == e;
                            let ok = if k < i { k } else { k + 1 };
                            assert(v[k] == old_v[ok]);
                            if ok < i {
                                lemma_lt_asymmetric(old_v[ok].path, old_v[i as int].path);
                            } else {
                                lemma_lt_asymmetric(old_v[i as int].path, old_v[ok].path);
                            }
                        }
                        if old_v.contains(e) && e.path != path@ {
                            let k = choose|k: int| 0 <= k < old_v.len() && old_v[k] == e;
                            if k < i {
                                assert(v[k] == e);
                            } else {
                                assert(k != i);
                                assert(v[k - 1] == e);
                            }
                        }
                    }
                    assert forall|k: int| 0 <= k < self.entries@.len() implies (#[trigger] self.entries@[k]).oid@.len()
                        == 20 && self.entries@[k].path@.len() + 70 <= usize::MAX by {
                        if k < i {
                            assert(self.entries@[k] == before[k]);
                        } else {
                            assert(self.entries@[k] == before[k + 1]);
                        }
                    }
                }
            },
            None => {
                assert forall|e: EntryView| self.view_seq().contains(e) <==> (old_v.contains(e) && e.path != path@) by {
                    if old_v.contains(e) {
                        let k = choose|k: int| 0 <= k < old_v.len() && old_v[k] == e;
                        assert(self.entries@[k].path@ == old_v[k].path);
                    }
                }
                self.changed = true;
            },
        }
    }
}

} // verus!
