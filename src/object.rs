use vstd::prelude::*;

use crate::codec::{compare_bytes, copy_bytes, decimal, push_all, push_decimal, slice_to_vec};
use crate::digest::{sha1, sha1_of};

verus! {

/// The three kinds of stored object.
#[derive(Clone, Copy, Debug, PartialEq, Eq, Structural)]
pub enum ObjectKind {
    Blob,
    Tree,
    Commit,
}

/// The type word of a kind: `blob`, `tree` or `commit`.
pub open spec fn kind_name(k: ObjectKind) -> Seq<u8> {
    match k {
        ObjectKind::Blob => seq![98u8, 108u8, 111u8, 98u8],
        ObjectKind::Tree => seq![116u8, 114u8, 101u8, 101u8],
        ObjectKind::Commit => seq![99u8, 111u8, 109u8, 109u8, 105u8, 116u8],
    }
}

/// The framed form of an object: `<type> <len>\0<body>`.
pub open spec fn framed(k: ObjectKind, body: Seq<u8>) -> Seq<u8> {
    kind_name(k) + seq![32u8] + decimal(body.len()) + seq![0u8] + body
}

/// The object id of an object: the SHA-1 of its framed form.
pub open spec fn object_id(k: ObjectKind, body: Seq<u8>) -> Seq<u8> {
    sha1_of(framed(k, body))
}

impl ObjectKind {
    /// The type word of this kind.
    pub fn name(&self) -> (r: Vec<u8>)
        ensures
            r@ == kind_name(*self),
    {
        let mut r: Vec<u8> = Vec::new();
        match self {
            ObjectKind::Blob => {
                r.push(98);
                r.push(108);
                r.push(111);
                r.push(98);
            },
            ObjectKind::Tree => {
                r.push(116);
                r.push(114);
                r.push(101);
                r.push(101);
            },
            ObjectKind::Commit => {
                r.push(99);
                r.push(111);
                r.push(109);
                r.push(109);
                r.push(105);
                r.push(116);
            },
        }
        assert(r@ =~= kind_name(*self));
        r
    }

    /// The kind whose type word is `w`, if any.
    pub fn from_name(w: &[u8]) -> (r: Option<ObjectKind>)
        ensures
            match r {
                Some(k) => kind_name(k) == w@,
                None => forall|k: ObjectKind| kind_name(k) != w@,
            },
    {
        let blob = ObjectKind::Blob.name();
        let tree = ObjectKind::Tree.name();
        let commit = ObjectKind::Commit.name();
        if compare_bytes(w, &blob) == 0 {
            Some(ObjectKind::Blob)
        } else if compare_bytes(w, &tree) == 0 {
            Some(ObjectKind::Tree)
        } else if compare_bytes(w, &commit) == 0 {
            Some(ObjectKind::Commit)
        } else {
            proof {
                assert forall|k: ObjectKind| kind_name(k) != w@ by {
                    match k {
                        ObjectKind::Blob => {},
                        ObjectKind::Tree => {},
                        ObjectKind::Commit => {},
                    }
                }
            }
            None
        }
    }
}

/// The framed form of an object of kind `k` with body `body`.
pub fn content_of(k: ObjectKind, body: &[u8]) -> (r: Vec<u8>)
    ensures
        r@ == framed(k, body@),
{
    let mut r = k.name();
    r.push(32);
    push_decimal(&mut r, body.len());
    r.push(0);
    push_all(&mut r, body);
    assert(r@ =~= framed(k, body@));
    r
}

/// The object id (20 raw bytes) of an object of kind `k` with body `body`.
pub fn oid_of(k: ObjectKind, body: &[u8]) -> (r: Vec<u8>)
    ensures
        r@ == object_id(k, body@),
        r@.len() == 20,
{
    let c = content_of(k, body);
    sha1(&c)
}

/// Splits a framed object into its kind and body. Succeeds exactly on framed forms.
pub fn parse_frame(data: &[u8]) -> (r: Option<(ObjectKind, Vec<u8>)>)
    ensures
        match r {
            Some((k, b)) => data@ == framed(k, b@),
            None => forall|k: ObjectKind, b: Seq<u8>| data@ != framed(k, b),
        },
{
    let mut sp: usize = 0;
    while sp < data.len() && data[sp] != 32
        invariant
            sp <= data@.len(),
            forall|i: int| 0 <= i < sp ==> data@[i] != 32,
        decreases data@.len() - sp,
    {
        sp += 1;
    }
    if sp == data.len() {
        proof {
            assert forall|k: ObjectKind, b: Seq<u8>| data@ != framed(k, b) by {
                if data@ == framed(k, b) {
                    assert(data@[kind_name(k).len() as int] == 32);
                }
            }
        }
        return None;
    }
    let word = slice_to_vec(data, 0, sp);
    let kind = match ObjectKind::from_name(&word) {
        Some(k) => k,
        None => {
            proof {
                assert forall|k: ObjectKind, b: Seq<u8>| data@ != framed(k, b) by {
                    if data@ == framed(k, b) {
                        lemma_first_space(data@, k, b);
                        assert(word@ =~= kind_name(k));
                    }
                }
            }
            return None;
        },
    };
    let mut nul: usize = sp + 1;
    while nul < data.len() && data[nul] != 0
        invariant
            sp < nul <= data@.len(),
            forall|i: int| sp < i < nul ==> data@[i] != 0,
        decreases data@.len() - nul,
    {
        nul += 1;
    }
    if nul == data.len() {
        proof {
            assert forall|k: ObjectKind, b: Seq<u8>| data@ != framed(k, b) by {
                if data@ == framed(k, b) {
                    lemma_first_space(data@, k, b);
                    assert(data@[(kind_name(k).len() + 1 + decimal(b.len()).len()) as int] == 0);
                }
            }
        }
        return None;
    }
    let body = slice_to_vec(data, nul + 1, data.len());
    let expected = content_of(kind, &body);
    if compare_bytes(data, &expected) != 0 {
        proof {
            assert forall|k: ObjectKind, b: Seq<u8>| data@ != framed(k, b) by {
                if data@ == framed(k, b) {
                    lemma_first_space(data@, k, b);
                    assert(word@ =~= kind_name(k));
                    lemma_kind_name_unique(k, kind);
                    crate::codec::lemma_decimal_digits(b.len());
                    let dl = decimal(b.len());
                    let q = (kind_name(k).len() + 1 + dl.len()) as int;
                    assert forall|i: int| sp < i < q implies data@[i] != 0 by {
                        assert(data@[i] == dl[i - sp - 1]);
                    }
                    assert(data@[q] == 0);
                    assert(nul == q);
                    assert(body@ =~= b);
                }
            }
        }
        return None;
    }
    Some((kind, body))
}

/// In a framed form the first space ends the type word.
pub proof fn lemma_first_space(data: Seq<u8>, k: ObjectKind, b: Seq<u8>)
    requires
        data == framed(k, b),
    ensures
        data[kind_name(k).len() as int] == 32,
        forall|i: int| 0 <= i < kind_name(k).len() ==> data[i] != 32 && data[i] == kind_name(k)[i],
        data.subrange(0, kind_name(k).len() as int) == kind_name(k),
        forall|i: int|
            0 <= i < decimal(b.len()).len() ==> data[kind_name(k).len() + 1 + i] == decimal(
                b.len(),
            )[i],
        data[(kind_name(k).len() + 1 + decimal(b.len()).len()) as int] == 0,
{
    assert(data.subrange(0, kind_name(k).len() as int) =~= kind_name(k));
}

/// Different kinds have different type words.
pub proof fn lemma_kind_name_unique(a: ObjectKind, b: ObjectKind)
    requires
        kind_name(a) == kind_name(b),
    ensures
        a == b,
{
    if a != b {
        match a {
            ObjectKind::Blob => {
                assert(kind_name(a)[0] != kind_name(b)[0] || kind_name(a).len() != kind_name(b).len());
            },
            ObjectKind::Tree => {
                assert(kind_name(a)[0] != kind_name(b)[0] || kind_name(a).len() != kind_name(b).len());
            },
            ObjectKind::Commit => {
                assert(kind_name(a).len() != kind_name(b).len());
            },
        }
    }
}

/// A framed object reads back as the kind and body it was framed from.
pub proof fn lemma_frame_round_trip(k: ObjectKind, b: Seq<u8>, k2: ObjectKind, b2: Seq<u8>)
    requires
        framed(k, b) == framed(k2, b2),
    ensures
        k == k2,
        b == b2,
{
    let d = framed(k, b);
    lemma_first_space(d, k, b);
    lemma_first_space(d, k2, b2);
    let n1 = kind_name(k).len() as int;
    let n2 = kind_name(k2).len() as int;
    if n1 < n2 {
        assert(d[n1] == 32);
    }
    if n2 < n1 {
        assert(d[n2] == 32);
    }
    assert(kind_name(k) =~= kind_name(k2));
    lemma_kind_name_unique(k, k2);
    crate::codec::lemma_decimal_digits(b.len());
    crate::codec::lemma_decimal_digits(b2.len());
    let l1 = decimal(b.len()).len() as int;
    let l2 = decimal(b2.len()).len() as int;
    if l1 < l2 {
        assert(d[n1 + 1 + l1] == 0);
        assert(d[n1 + 1 + l1] == decimal(b2.len())[l1]);
    }
    if l2 < l1 {
        assert(d[n1 + 1 + l2] == 0);
        assert(d[n1 + 1 + l2] == decimal(b.len())[l2]);
    }
    let pre = kind_name(k) + seq![32u8] + decimal(b.len()) + seq![0u8];
    let pre2 = kind_name(k2) + seq![32u8] + decimal(b2.len()) + seq![0u8];
    assert(pre.len() == pre2.len());
    assert(d.subrange(pre.len() as int, d.len() as int) =~= b);
    assert(d.subrange(pre.len() as int, d.len() as int) =~= b2);
}

/// File contents as an object body.
pub struct Blob {
    pub data: Vec<u8>,
}

impl Blob {
    /// A blob holding a copy of `data`.
    pub fn new(data: &[u8]) -> (r: Blob)
        ensures
            r.data@ == data@,
    {
        Blob { data: copy_bytes(data) }
    }

    /// The object id of this blob.
    pub fn get_oid(&self) -> (r: Vec<u8>)
        ensures
            r@ == object_id(ObjectKind::Blob, self.data@),
    {
        oid_of(ObjectKind::Blob, &self.data)
    }
}

} // verus!

verus! {

/// The zlib stream that flate2 produces for `data` at the default level.
pub uninterp spec fn zlib_deflate_of(data: Seq<u8>) -> Seq<u8>;

/// The bytes that a zlib stream decodes to, if it is a valid stream.
pub uninterp spec fn zlib_inflate_of(data: Seq<u8>) -> Option<Seq<u8>>;

/// Relies on flate2's `ZlibEncoder` at `Compression::default()`, writing into a vector: the
/// compressed stream depends on the input alone.
#[verifier::external_body]
pub(crate) fn deflate(data: &[u8]) -> (r: Vec<u8>)
    ensures
        r@ == zlib_deflate_of(data@),
{
    let mut e = flate2::write::ZlibEncoder::new(Vec::new(), flate2::Compression::default());
    match std::io::Write::write_all(&mut e, data) {
        Ok(()) => {},
        Err(_) => return Vec::new(),
    }
    match e.finish() {
        Ok(v) => v,
        Err(_) => Vec::new(),
    }
}

/// Relies on flate2's `ZlibDecoder` reading the whole stream: the decoded bytes, or `None`
/// when the stream is invalid.
#[verifier::external_body]
pub(crate) fn inflate(data: &[u8]) -> (r: Option<Vec<u8>>)
    ensures
        match r {
            Some(v) => zlib_inflate_of(data@) == Some(v@),
            None => zlib_inflate_of(data@) is None,
        },
{
    let mut d = flate2::read::ZlibDecoder::new(data);
    let mut out: Vec<u8> = Vec::new();
    match std::io::Read::read_to_end(&mut d, &mut out) {
        Ok(_) => Some(out),
        Err(_) => None,
    }
}

/// The stored form of an object: its id (20 raw bytes) and the compressed framed form.
pub fn stored_object(k: ObjectKind, body: &[u8]) -> (r: (Vec<u8>, Vec<u8>))
    ensures
        r.0@ == object_id(k, body@),
        r.1@ == zlib_deflate_of(framed(k, body@)),
{
    let c = content_of(k, body);
    let oid = crate::digest::sha1(&c);
    (oid, deflate(&c))
}

/// Reads a stored object: decompresses it and splits its framing. `None` when the stream is
/// invalid or does not hold a framed object.
pub fn read_object(stored: &[u8]) -> (r: Option<(ObjectKind, Vec<u8>)>)
    ensures
        match r {
            Some((k, b)) => zlib_inflate_of(stored@) == Some(framed(k, b@)),
            None => match zlib_inflate_of(stored@) {
                Some(d) => forall|k: ObjectKind, b: Seq<u8>| d != framed(k, b),
                None => true,
            },
        },
{
    match inflate(stored) {
        Some(d) => parse_frame(&d),
        None => None,
    }
}

/// The directory and file name under which an object is stored: the first two hex digits of
/// its id, and the rest.
pub fn object_path(oid_hex: &[u8]) -> (r: (Vec<u8>, Vec<u8>))
    requires
        oid_hex@.len() >= 2,
    ensures
        r.0@ == oid_hex@.subrange(0, 2),
        r.1@ == oid_hex@.subrange(2, oid_hex@.len() as int),
{
    (crate::codec::slice_to_vec(oid_hex, 0, 2), crate::codec::slice_to_vec(oid_hex, 2, oid_hex.len()))
}

/// The short form of an id shown to users: its first six hex digits.
pub fn short_oid(oid_hex: &[u8]) -> (r: Vec<u8>)
    requires
        oid_hex@.len() >= 6,
    ensures
        r@ == oid_hex@.subrange(0, 6),
{
    crate::codec::slice_to_vec(oid_hex, 0, 6)
}

/// Object ids are determined by content: the same kind and body always give the same id, and
/// the framed form that the id is taken over gives back exactly that kind and body.
pub proof fn lemma_oid_determinism(k1: ObjectKind, b1: Seq<u8>, k2: ObjectKind, b2: Seq<u8>)
    ensures
        (k1 == k2 && b1 == b2) ==> object_id(k1, b1) == object_id(k2, b2),
        framed(k1, b1) == framed(k2, b2) ==> (k1 == k2 && b1 == b2),
{
    if framed(k1, b1) == framed(k2, b2) {
        lemma_frame_round_trip(k1, b1, k2, b2);
    }
}

} // verus!
