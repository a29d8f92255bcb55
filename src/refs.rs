use vstd::prelude::*;

use crate::codec::{compare_bytes, copy_bytes, push_all, slice_to_vec};
use crate::status::{insert_keyed, keys_sorted, maps_to};

verus! {

/// How many symbolic references a chain may pass through before it counts as broken.
pub const MAX_SYMREF_DEPTH: usize = 32;

/// A reference: a direct object id (hex text), or a pointer to another reference's path.
#[derive(Debug, PartialEq, Eq)]
pub enum Ref {
    Ref { oid: Vec<u8> },
    SymRef { path: Vec<u8> },
}

/// `HEAD`.
pub open spec fn head_name() -> Seq<u8> {
    seq![72u8, 69u8, 65u8, 68u8]
}

/// `refs/`.
pub open spec fn refs_prefix() -> Seq<u8> {
    seq![114u8, 101u8, 102u8, 115u8, 47u8]
}

/// `refs/heads/`.
pub open spec fn heads_prefix() -> Seq<u8> {
    refs_prefix() + seq![104u8, 101u8, 97u8, 100u8, 115u8, 47u8]
}

/// `ref: `, which opens a symbolic reference.
pub open spec fn symref_marker() -> Seq<u8> {
    seq![114u8, 101u8, 102u8, 58u8, 32u8]
}

/// ASCII white space, as trimming removes it.
pub open spec fn is_space(c: u8) -> bool {
    c == 32 || (9 <= c <= 13)
}

/// The bounds of `s` with white space trimmed from both ends: the first kept byte and one past
/// the last.
pub open spec fn trimmed(s: Seq<u8>, from: int, to: int) -> bool {
    &&& 0 <= from <= to <= s.len()
    &&& forall|i: int| 0 <= i < from ==> is_space(#[trigger] s[i])
    &&& forall|i: int| to <= i < s.len() ==> is_space(#[trigger] s[i])
    &&& from < to ==> !is_space(s[from]) && !is_space(s[to - 1])
}

/// What a reference file holding `content` says: `ref: <path>` (path not empty, on one line)
/// is symbolic, anything else is taken as an object id; white space around is ignored.
pub open spec fn parse_ref_spec(content: Seq<u8>, r: Ref) -> bool {
    exists|from: int, to: int|
        trimmed(content, from, to) && {
            let t = content.subrange(from, to);
            let m = symref_marker().len() as int;
            if t.len() > m && t.subrange(0, m) == symref_marker() && forall|i: int| m <= i < t.len() ==> #[trigger] t[i] != 10 {
                r == Ref::SymRef { path: r->SymRef_path } && r->SymRef_path@ == t.subrange(m, t.len() as int)
            } else {
                r == Ref::Ref { oid: r->Ref_oid } && r->Ref_oid@ == t
            }
        }
}

/// Whether trimmed reference text is symbolic: `ref: ` then a non-empty path on one line.
pub open spec fn is_symbolic(t: Seq<u8>) -> bool {
    let m = symref_marker().len() as int;
    t.len() > m && t.subrange(0, m) == symref_marker() && forall|i: int| m <= i < t.len() ==> #[trigger] t[i] != 10
}

/// What a reference file's contents say: symbolic or not, and the path or object id.
pub open spec fn ref_of(content: Seq<u8>) -> (bool, Seq<u8>) {
    let (f, t) = choose|f: int, t: int| trimmed(content, f, t);
    let s = content.subrange(f, t);
    if is_symbolic(s) {
        (true, s.subrange(symref_marker().len() as int, s.len() as int))
    } else {
        (false, s)
    }
}

/// A reference as a pair: symbolic or not, and its path or object id.
pub open spec fn ref_view(r: Ref) -> (bool, Seq<u8>) {
    match r {
        Ref::Ref { oid } => (false, oid@),
        Ref::SymRef { path } => (true, path@),
    }
}

/// Trimming gives one result.
pub proof fn lemma_trimmed_unique(c: Seq<u8>, f1: int, t1: int, f2: int, t2: int)
    requires
        trimmed(c, f1, t1),
        trimmed(c, f2, t2),
    ensures
        c.subrange(f1, t1) == c.subrange(f2, t2),
{
    if f1 < t1 && f2 < t2 {
        if f1 < f2 {
            assert(is_space(c[f1]));
        }
        if f2 < f1 {
            assert(is_space(c[f2]));
        }
        if t1 < t2 {
            assert(is_space(c[t2 - 1]));
        }
        if t2 < t1 {
            assert(is_space(c[t1 - 1]));
        }
    } else if f1 < t1 {
        if f1 < f2 {
            assert(is_space(c[f1]));
        } else {
            assert(is_space(c[f1]));
        }
    } else if f2 < t2 {
        if f2 < f1 {
            assert(is_space(c[f2]));
        } else {
            assert(is_space(c[f2]));
        }
    } else {
        assert(c.subrange(f1, t1) =~= c.subrange(f2, t2));
    }
}

impl Ref {
    /// Whether this is the symbolic reference `HEAD`.
    pub fn is_head(&self) -> (r: bool)
        ensures
            r == match self {
                Ref::Ref { .. } => false,
                Ref::SymRef { path } => path@ == head_name(),
            },
    {
        match self {
            Ref::Ref { .. } => false,
            Ref::SymRef { path } => {
                let h = head_bytes();
                compare_bytes(path, &h) == 0
            },
        }
    }
}

/// `HEAD` as bytes.
pub fn head_bytes() -> (r: Vec<u8>)
    ensures
        r@ == head_name(),
{
    let mut r: Vec<u8> = Vec::new();
    r.push(72);
    r.push(69);
    r.push(65);
    r.push(68);
    assert(r@ =~= head_name());
    r
}

/// `refs/heads/` as bytes.
pub fn heads_bytes() -> (r: Vec<u8>)
    ensures
        r@ == heads_prefix(),
{
    let mut r: Vec<u8> = Vec::new();
    r.push(114);
    r.push(101);
    r.push(102);
    r.push(115);
    r.push(47);
    r.push(104);
    r.push(101);
    r.push(97);
    r.push(100);
    r.push(115);
    r.push(47);
    assert(r@ =~= heads_prefix());
    r
}

/// `refs/` as bytes.
pub fn refs_bytes() -> (r: Vec<u8>)
    ensures
        r@ == refs_prefix(),
{
    let mut r: Vec<u8> = Vec::new();
    r.push(114);
    r.push(101);
    r.push(102);
    r.push(115);
    r.push(47);
    assert(r@ =~= refs_prefix());
    r
}

/// Whether white space.
pub fn is_space_exec(c: u8) -> (r: bool)
    ensures
        r == is_space(c),
{
    c == 32 || (9 <= c && c <= 13)
}

/// Reads a reference file's contents.
pub fn read_oid_or_symref(content: &[u8]) -> (r: Ref)
    ensures
        parse_ref_spec(content@, r),
        ref_view(r) == ref_of(content@),
{
    let mut from: usize = 0;
    while from < content.len() && is_space_exec(content[from])
        invariant
            from <= content@.len(),
            forall|i: int| 0 <= i < from ==> is_space(#[trigger] content@[i]),
        decreases content@.len() - from,
    {
        from += 1;
    }
    let mut to: usize = content.len();
    while to > from && is_space_exec(content[to - 1])
        invariant
            from <= to <= content@.len(),
            forall|i: int| to <= i < content@.len() ==> is_space(#[trigger] content@[i]),
        decreases to,
    {
        to -= 1;
    }
    let t = slice_to_vec(content, from, to);
    assert(trimmed(content@, from as int, to as int));
    let symbolic = t.len() > 5 && t[0] == 114 && t[1] == 101 && t[2] == 102 && t[3] == 58 && t[4] == 32 && {
        let mut k: usize = 5;
        let mut ok = true;
        while k < t.len()
            invariant
                5 <= k <= t@.len(),
                ok == forall|i: int| 5 <= i < k ==> #[trigger] t@[i] != 10,
            decreases t@.len() - k,
        {
            if t[k] == 10 {
                ok = false;
            }
            k += 1;
        }
        ok
    };
    let r = if symbolic {
        Ref::SymRef { path: slice_to_vec(&t, 5, t.len()) }
    } else {
        Ref::Ref { oid: t }
    };
    proof {
        let tv = content@.subrange(from as int, to as int);
        assert(tv == t@);
        let m = symref_marker().len() as int;
        if tv.len() > m && tv.subrange(0, m) == symref_marker() {
            assert(tv.subrange(0, m)[0] == tv[0]);
            assert(tv.subrange(0, m)[1] == tv[1]);
            assert(tv.subrange(0, m)[2] == tv[2]);
            assert(tv.subrange(0, m)[3] == tv[3]);
            assert(tv.subrange(0, m)[4] == tv[4]);
        }
        if symbolic {
            assert(tv.subrange(0, m) =~= symref_marker());
        }
        assert(parse_ref_spec(content@, r));
        let (f, tt) = choose|f: int, tt: int| trimmed(content@, f, tt);
        lemma_trimmed_unique(content@, f, tt, from as int, to as int);
        if symbolic {
            assert(t@.subrange(5, t@.len() as int) == tv.subrange(m, tv.len() as int));
        }
    }
    r
}

} // verus!

verus! {

/// Whether byte `c` may not appear in a reference name.
pub open spec fn bad_name_byte(c: u8) -> bool {
    c <= 32 || c == 42 || c == 58 || c == 63 || c == 91 || c == 92 || c == 94 || c == 126 || c == 127
}

/// Whether `s` holds `pat` starting at `i`.
pub open spec fn has_at(s: Seq<u8>, i: int, pat: Seq<u8>) -> bool {
    0 <= i && i + pat.len() <= s.len() && s.subrange(i, i + pat.len()) == pat
}

/// The rule for names that references may not have: starting with `.`, holding `/.`, `..` or
/// `@{`, ending with `/` or `.lock`, or holding a control byte, space, `*`, `:`, `?`, `[`, `\`,
/// `^`, `~` or DEL.
pub open spec fn invalid_name(s: Seq<u8>) -> bool {
    ||| (s.len() > 0 && s[0] == 46)
    ||| (exists|i: int| has_at(s, i, seq![47u8, 46u8]))
    ||| (exists|i: int| has_at(s, i, seq![46u8, 46u8]))
    ||| (s.len() > 0 && s[s.len() - 1] == 47)
    ||| has_at(s, s.len() - 5, seq![46u8, 108u8, 111u8, 99u8, 107u8])
    ||| (exists|i: int| has_at(s, i, seq![64u8, 123u8]))
    ||| (exists|i: int| 0 <= i < s.len() && bad_name_byte(#[trigger] s[i]))
}

/// Whether `name` is allowed as a reference name.
pub fn is_valid_ref(name: &[u8]) -> (r: bool)
    ensures
        r == !invalid_name(name@),
{
    let n = name.len();
    if n > 0 && (name[0] == 46 || name[n - 1] == 47) {
        return false;
    }
    if n >= 5 && name[n - 5] == 46 && name[n - 4] == 108 && name[n - 3] == 111 && name[n - 2] == 99 && name[n - 1] == 107 {
        assert(name@.subrange(n - 5, n as int) =~= seq![46u8, 108u8, 111u8, 99u8, 107u8]);
        return false;
    }
    proof {
        if has_at(name@, n - 5, seq![46u8, 108u8, 111u8, 99u8, 107u8]) {
            let w = name@.subrange(n - 5, n as int);
            assert(w[0] == name@[n - 5] && w[1] == name@[n - 4] && w[2] == name@[n - 3] && w[3] == name@[n - 2] && w[4] == name@[n - 1]);
        }
    }
    let mut i: usize = 0;
    while i < n
        invariant
            n == name@.len(),
            i <= n,
            forall|k: int| 0 <= k < i ==> !bad_name_byte(#[trigger] name@[k]),
            forall|k: int| 0 <= k < i ==> !(k + 1 < n && (#[trigger] name@[k] == 47 || name@[k] == 46 || name@[k] == 64)
                && ((name@[k] == 47 && name@[k + 1] == 46) || (name@[k] == 46 && name@[k + 1] == 46) || (name@[k] == 64 && name@[k + 1] == 123))),
        decreases n - i,
    {
        let c = name[i];
        if c <= 32 || c == 42 || c == 58 || c == 63 || c == 91 || c == 92 || c == 94 || c == 126 || c == 127 {
            proof {
                assert(bad_name_byte(name@[i as int]));
            }
            return false;
        }
        if i + 1 < n {
            let d = name[i + 1];
            if (c == 47 && d == 46) || (c == 46 && d == 46) || (c == 64 && d == 123) {
                proof {
                    if c == 47 {
                        assert(name@.subrange(i as int, i + 2) =~= seq![47u8, 46u8]);
                        assert(has_at(name@, i as int, seq![47u8, 46u8]));
                    } else if c == 46 {
                        assert(name@.subrange(i as int, i + 2) =~= seq![46u8, 46u8]);
                        assert(has_at(name@, i as int, seq![46u8, 46u8]));
                    } else {
                        assert(name@.subrange(i as int, i + 2) =~= seq![64u8, 123u8]);
                        assert(has_at(name@, i as int, seq![64u8, 123u8]));
                    }
                }
                return false;
            }
        }
        i += 1;
    }
    proof {
        assert forall|k: int| !has_at(name@, k, seq![47u8, 46u8]) && !has_at(name@, k, seq![46u8, 46u8]) && !has_at(name@, k, seq![64u8, 123u8]) by {
            if 0 <= k && k + 2 <= n {
                let w = name@.subrange(k, k + 2);
                assert(w[0] == name@[k] && w[1] == name@[k + 1]);
            }
        }
    }
    true
}

/// The contents of the reference file at `p`, if there is one.
pub open spec fn content_of(files: Seq<(Vec<u8>, Vec<u8>)>, p: Seq<u8>) -> Option<Seq<u8>> {
    if exists|i: int| 0 <= i < files.len() && (#[trigger] files[i]).0@ == p {
        Some(files[content_index(files, p)].1@)
    } else {
        None
    }
}

/// A position of the reference file at `p`, when there is one.
pub open spec fn content_index(files: Seq<(Vec<u8>, Vec<u8>)>, p: Seq<u8>) -> int {
    choose|i: int| 0 <= i < files.len() && (#[trigger] files[i]).0@ == p
}

/// The object id that the reference at `p` leads to, passing through at most `depth` more
/// symbolic references.
pub open spec fn resolve_spec(files: Seq<(Vec<u8>, Vec<u8>)>, p: Seq<u8>, depth: nat) -> Option<Seq<u8>>
    decreases depth,
{
    match content_of(files, p) {
        None => None,
        Some(c) => if !ref_of(c).0 {
            Some(ref_of(c).1)
        } else if depth == 0 {
            None
        } else {
            resolve_spec(files, ref_of(c).1, (depth - 1) as nat)
        },
    }
}

/// The last reference of the symbolic chain from `p`: the first that is not symbolic (or is
/// missing), within `depth` steps.
pub open spec fn current_spec(files: Seq<(Vec<u8>, Vec<u8>)>, p: Seq<u8>, depth: nat) -> Seq<u8>
    decreases depth,
{
    match content_of(files, p) {
        Some(c) => if ref_of(c).0 && depth > 0 {
            current_spec(files, ref_of(c).1, (depth - 1) as nat)
        } else {
            p
        },
        None => p,
    }
}

/// The path of the reference named `name`: the name itself, under `refs/`, or under
/// `refs/heads/`, whichever exists first.
pub open spec fn ref_path_spec(files: Seq<(Vec<u8>, Vec<u8>)>, name: Seq<u8>) -> Option<Seq<u8>> {
    if content_of(files, name) is Some {
        Some(name)
    } else if content_of(files, refs_prefix() + name) is Some {
        Some(refs_prefix() + name)
    } else if content_of(files, heads_prefix() + name) is Some {
        Some(heads_prefix() + name)
    } else {
        None
    }
}

/// The object id that the reference named `name` leads to.
pub open spec fn read_ref_spec(files: Seq<(Vec<u8>, Vec<u8>)>, name: Seq<u8>) -> Option<Seq<u8>> {
    match ref_path_spec(files, name) {
        Some(p) => resolve_spec(files, p, MAX_SYMREF_DEPTH as nat),
        None => None,
    }
}

/// Why a branch operation was refused.
#[derive(Clone, Copy, Debug, PartialEq, Eq, Structural)]
pub enum BranchError {
    InvalidName,
    AlreadyExists,
    NotFound,
}

/// The reference files of a repository (paths relative to its directory), in path order.
pub struct Refs {
    pub files: Vec<(Vec<u8>, Vec<u8>)>,
}

impl Refs {
    /// No reference files.
    pub fn new() -> (r: Refs)
        ensures
            r.files@.len() == 0,
            r.wf(),
    {
        Refs { files: Vec::new() }
    }

    /// Paths in increasing order.
    pub open spec fn wf(&self) -> bool {
        keys_sorted(self.files@)
    }

    /// Records the reference file at `path` with `content`.
    pub fn load(&mut self, path: Vec<u8>, content: Vec<u8>)
        requires
            old(self).wf(),
        ensures
            final(self).wf(),
            content_of(final(self).files@, path@) == Some(content@),
            forall|q: Seq<u8>| q != path@ ==> content_of(final(self).files@, q) == content_of(old(self).files@, q),
    {
        let ghost pv = path@;
        let ghost cv = content@;
        let ghost before = self.files@;
        insert_keyed(&mut self.files, path, content);
        proof {
            lemma_content_of_maps(self.files@, pv);
            assert forall|q: Seq<u8>| q != pv implies content_of(self.files@, q) == content_of(before, q) by {
                lemma_content_of_maps(self.files@, q);
                lemma_content_of_maps(before, q);
                if content_of(before, q) is Some {
                    let i = choose|i: int| 0 <= i < before.len() && (#[trigger] before[i]).0@ == q;
                    assert(maps_to(before, q, before[i].1));
                    assert(maps_to(self.files@, q, before[i].1));
                }
                if content_of(self.files@, q) is Some {
                    let i = choose|i: int| 0 <= i < self.files@.len() && (#[trigger] self.files@[i]).0@ == q;
                    assert(maps_to(self.files@, q, self.files@[i].1));
                    assert(maps_to(before, q, self.files@[i].1));
                }
            }
            let i = choose|i: int| 0 <= i < self.files@.len() && (#[trigger] self.files@[i]).0@ == pv && self.files@[i].1 == content;
            assert(maps_to(self.files@, pv, self.files@[i].1));
        }
    }

    /// The contents of the reference file at `p`.
    pub fn lookup(&self, p: &[u8]) -> (r: Option<&Vec<u8>>)
        requires
            self.wf(),
        ensures
            match r {
                Some(c) => content_of(self.files@, p@) == Some(c@),
                None => content_of(self.files@, p@) is None,
            },
    {
        let mut i: usize = 0;
        while i < self.files.len()
            invariant
                self.wf(),
                i <= self.files@.len(),
                forall|k: int| 0 <= k < i ==> (#[trigger] self.files@[k]).0@ != p@,
            decreases self.files@.len() - i,
        {
            if compare_bytes(&self.files[i].0, p) == 0 {
                proof {
                    lemma_content_of_maps(self.files@, p@);
                    assert(maps_to(self.files@, p@, self.files@[i as int].1));
                }
                return Some(&self.files[i].1);
            }
            i += 1;
        }
        None
    }

    /// The object id that the reference at `path` leads to, following symbolic references.
    pub fn read_symref(&self, path: &[u8]) -> (r: Option<Vec<u8>>)
        requires
            self.wf(),
        ensures
            match r {
                Some(o) => resolve_spec(self.files@, path@, MAX_SYMREF_DEPTH as nat) == Some(o@),
                None => resolve_spec(self.files@, path@, MAX_SYMREF_DEPTH as nat) is None,
            },
    {
        self.resolve_from(path, MAX_SYMREF_DEPTH)
    }

    fn resolve_from(&self, path: &[u8], depth: usize) -> (r: Option<Vec<u8>>)
        requires
            self.wf(),
        ensures
            match r {
                Some(o) => resolve_spec(self.files@, path@, depth as nat) == Some(o@),
                None => resolve_spec(self.files@, path@, depth as nat) is None,
            },
        decreases depth,
    {
        match self.lookup(path) {
            None => None,
            Some(c) => {
                let r = read_oid_or_symref(c);
                match r {
                    Ref::Ref { oid } => Some(oid),
                    Ref::SymRef { path: next } => {
                        if depth == 0 {
                            None
                        } else {
                            self.resolve_from(&next, depth - 1)
                        }
                    },
                }
            },
        }
    }

    /// The object id that `HEAD` leads to, if any.
    pub fn read_head(&self) -> (r: Option<Vec<u8>>)
        requires
            self.wf(),
        ensures
            match r {
                Some(o) => resolve_spec(self.files@, head_name(), MAX_SYMREF_DEPTH as nat) == Some(o@),
                None => resolve_spec(self.files@, head_name(), MAX_SYMREF_DEPTH as nat) is None,
            },
    {
        let h = head_bytes();
        self.read_symref(&h)
    }

    /// The path of the reference named `name`: the name itself, under `refs/`, or under
    /// `refs/heads/`, whichever exists first.
    pub fn path_for_name(&self, name: &[u8]) -> (r: Option<Vec<u8>>)
        requires
            self.wf(),
        ensures
            match r {
                Some(p) => content_of(self.files@, p@) is Some && (p@ == name@ || (content_of(self.files@, name@) is None
                    && (p@ == refs_prefix() + name@ || (content_of(self.files@, refs_prefix() + name@) is None
                    && p@ == heads_prefix() + name@)))),
                None => content_of(self.files@, name@) is None && content_of(self.files@, refs_prefix() + name@) is None
                    && content_of(self.files@, heads_prefix() + name@) is None,
            },
    {
        if self.lookup(name).is_some() {
            return Some(copy_bytes(name));
        }
        let mut a = refs_bytes();
        push_all(&mut a, name);
        if self.lookup(&a).is_some() {
            return Some(a);
        }
        let mut b = heads_bytes();
        push_all(&mut b, name);
        if self.lookup(&b).is_some() {
            return Some(b);
        }
        None
    }

    /// The object id that the reference named `name` leads to.
    pub fn read_ref(&self, name: &[u8]) -> (r: Option<Vec<u8>>)
        requires
            self.wf(),
        ensures
            match r {
                Some(o) => read_ref_spec(self.files@, name@) == Some(o@),
                None => read_ref_spec(self.files@, name@) is None,
            },
    {
        match self.path_for_name(name) {
            Some(p) => self.read_symref(&p),
            None => None,
        }
    }

    /// The object id a reference leads to: its own for a direct one.
    pub fn read_oid(&self, r: &Ref) -> (o: Option<Vec<u8>>)
        requires
            self.wf(),
        ensures
            match r {
                Ref::Ref { oid } => o is Some && o->0@ == oid@,
                Ref::SymRef { path } => match o {
                    Some(x) => read_ref_spec(self.files@, path@) == Some(x@),
                    None => read_ref_spec(self.files@, path@) is None,
                },
            },
    {
        match r {
            Ref::Ref { oid } => Some(copy_bytes(oid)),
            Ref::SymRef { path } => self.read_ref(path),
        }
    }

    /// The last reference of the symbolic chain that starts at `source`: the current branch
    /// when `source` is `HEAD`.
    pub fn current_ref(&self, source: &[u8]) -> (r: Ref)
        requires
            self.wf(),
        ensures
            r matches Ref::SymRef { path } && path@ == current_spec(self.files@, source@, MAX_SYMREF_DEPTH as nat),
    {
        let p = self.current_from(source, MAX_SYMREF_DEPTH);
        Ref::SymRef { path: p }
    }

    fn current_from(&self, source: &[u8], depth: usize) -> (r: Vec<u8>)
        requires
            self.wf(),
        ensures
            r@ == current_spec(self.files@, source@, depth as nat),
        decreases depth,
    {
        match self.lookup(source) {
            Some(c) => {
                let r = read_oid_or_symref(c);
                match r {
                    Ref::SymRef { path } => {
                        if depth > 0 {
                            self.current_from(&path, depth - 1)
                        } else {
                            copy_bytes(source)
                        }
                    },
                    Ref::Ref { .. } => copy_bytes(source),
                }
            },
            None => copy_bytes(source),
        }
    }
}

/// In a list kept in key order, a key's contents are those that the list maps it to.
pub proof fn lemma_content_of_maps(files: Seq<(Vec<u8>, Vec<u8>)>, p: Seq<u8>)
    requires
        keys_sorted(files),
    ensures
        forall|c: Vec<u8>| maps_to(files, p, c) ==> content_of(files, p) == Some(c@),
{
    assert forall|c: Vec<u8>| maps_to(files, p, c) implies content_of(files, p) == Some(c@) by {
        let k = choose|i: int| 0 <= i < files.len() && (#[trigger] files[i]).0@ == p && files[i].1 == c;
        let j = content_index(files, p);
        let i = k;
        assert(0 <= i < files.len() && files[i].0@ == p);
        if i < j {
            crate::codec::lemma_lt_asymmetric(files[i].0@, files[j].0@);
        } else if j < i {
            crate::codec::lemma_lt_asymmetric(files[j].0@, files[i].0@);
        }
        assert(j == i);
        assert(content_of(files, p) == Some(files[j].1@));
    }
}

} // verus!

verus! {

/// Whether `p` starts with `pre`.
pub open spec fn starts_with(p: Seq<u8>, pre: Seq<u8>) -> bool {
    pre.len() <= p.len() && p.subrange(0, pre.len() as int) == pre
}

/// Whether `p` starts with `pre`.
pub fn starts_with_exec(p: &[u8], pre: &[u8]) -> (r: bool)
    ensures
        r == starts_with(p@, pre@),
{
    if pre.len() > p.len() {
        return false;
    }
    let mut i: usize = 0;
    while i < pre.len()
        invariant
            i <= pre@.len() <= p@.len(),
            forall|k: int| 0 <= k < i ==> p@[k] == pre@[k],
        decreases pre@.len() - i,
    {
        if p[i] != pre[i] {
            assert(p@.subrange(0, pre@.len() as int)[i as int] != pre@[i as int]);
            return false;
        }
        i += 1;
    }
    assert(p@.subrange(0, pre@.len() as int) =~= pre@);
    true
}

impl Refs {
    /// Writes `value` and a newline to the reference file at `path`; returns the path and the
    /// bytes to store there.
    pub fn update_ref_file(&mut self, path: &[u8], value: &[u8]) -> (r: (Vec<u8>, Vec<u8>))
        requires
            old(self).wf(),
        ensures
            final(self).wf(),
            r.0@ == path@,
            r.1@ == value@.push(10),
            content_of(final(self).files@, path@) == Some(r.1@),
            forall|q: Seq<u8>| q != path@ ==> content_of(final(self).files@, q) == content_of(old(self).files@, q),
    {
        let mut content = copy_bytes(value);
        content.push(10);
        let out = (copy_bytes(path), copy_bytes(&content));
        self.load(copy_bytes(path), content);
        out
    }

    /// Writes `oid` at the end of the symbolic chain that starts at `path` (at `path` itself
    /// when it is not symbolic).
    pub fn update_symref(&mut self, path: &[u8], oid: &[u8]) -> (r: (Vec<u8>, Vec<u8>))
        requires
            old(self).wf(),
        ensures
            final(self).wf(),
            r.0@ == current_spec(old(self).files@, path@, MAX_SYMREF_DEPTH as nat),
            r.1@ == oid@.push(10),
            content_of(final(self).files@, r.0@) == Some(r.1@),
            forall|q: Seq<u8>| q != r.0@ ==> content_of(final(self).files@, q) == content_of(old(self).files@, q),
    {
        let target = self.current_from(path, MAX_SYMREF_DEPTH);
        self.update_ref_file(&target, oid)
    }

    /// Moves `HEAD`: the branch it points to when symbolic, else `HEAD` itself.
    pub fn update_head(&mut self, oid: &[u8]) -> (r: (Vec<u8>, Vec<u8>))
        requires
            old(self).wf(),
        ensures
            final(self).wf(),
            r.0@ == current_spec(old(self).files@, head_name(), MAX_SYMREF_DEPTH as nat),
            r.1@ == oid@.push(10),
            content_of(final(self).files@, r.0@) == Some(r.1@),
            forall|q: Seq<u8>| q != r.0@ ==> content_of(final(self).files@, q) == content_of(old(self).files@, q),
    {
        let h = head_bytes();
        self.update_symref(&h, oid)
    }

    /// Points `HEAD` at branch `revision` when it exists, else detaches it at `oid`.
    pub fn set_head(&mut self, revision: &[u8], oid: &[u8]) -> (r: (Vec<u8>, Vec<u8>))
        requires
            old(self).wf(),
        ensures
            final(self).wf(),
            r.0@ == head_name(),
            content_of(old(self).files@, heads_prefix() + revision@) is Some ==> r.1@ == (symref_marker() + heads_prefix() + revision@).push(10),
            content_of(old(self).files@, heads_prefix() + revision@) is None ==> r.1@ == oid@.push(10),
            content_of(final(self).files@, head_name()) == Some(r.1@),
            forall|q: Seq<u8>| q != head_name() ==> content_of(final(self).files@, q) == content_of(old(self).files@, q),
    {
        let mut p = heads_bytes();
        push_all(&mut p, revision);
        let h = head_bytes();
        if self.lookup(&p).is_some() {
            let mut v: Vec<u8> = Vec::new();
            v.push(114);
            v.push(101);
            v.push(102);
            v.push(58);
            v.push(32);
            assert(v@ =~= symref_marker());
            push_all(&mut v, &p);
            self.update_ref_file(&h, &v)
        } else {
            self.update_ref_file(&h, oid)
        }
    }

    /// Creates branch `name` at `start_oid`; refused for an invalid name or an existing branch.
    pub fn create_branch(&mut self, name: &[u8], start_oid: &[u8]) -> (r: Result<(Vec<u8>, Vec<u8>), BranchError>)
        requires
            old(self).wf(),
        ensures
            final(self).wf(),
            invalid_name(name@) ==> r == Err::<(Vec<u8>, Vec<u8>), BranchError>(BranchError::InvalidName),
            !invalid_name(name@) && content_of(old(self).files@, heads_prefix() + name@) is Some ==> r == Err::<
                (Vec<u8>, Vec<u8>),
                BranchError,
            >(BranchError::AlreadyExists),
            r is Err ==> final(self).files@ == old(self).files@,
            !invalid_name(name@) && content_of(old(self).files@, heads_prefix() + name@) is None ==> r is Ok && r->Ok_0.0@
                == heads_prefix() + name@ && r->Ok_0.1@ == start_oid@.push(10) && content_of(
                final(self).files@,
                heads_prefix() + name@,
            ) == Some(start_oid@.push(10)) && forall|q: Seq<u8>|
                q != heads_prefix() + name@ ==> content_of(final(self).files@, q) == content_of(old(self).files@, q),
    {
        if !is_valid_ref(name) {
            return Err(BranchError::InvalidName);
        }
        let mut p = heads_bytes();
        push_all(&mut p, name);
        if self.lookup(&p).is_some() {
            return Err(BranchError::AlreadyExists);
        }
        Ok(self.update_ref_file(&p, start_oid))
    }

    /// Deletes branch `name`, giving the object id it led to; refused when it leads nowhere.
    pub fn delete_branch(&mut self, name: &[u8]) -> (r: Result<Vec<u8>, BranchError>)
        requires
            old(self).wf(),
        ensures
            final(self).wf(),
            match resolve_spec(old(self).files@, heads_prefix() + name@, MAX_SYMREF_DEPTH as nat) {
                Some(o) => r is Ok && r->Ok_0@ == o && content_of(final(self).files@, heads_prefix() + name@) is None
                    && forall|q: Seq<u8>| q != heads_prefix() + name@ ==> content_of(final(self).files@, q) == content_of(old(self).files@, q),
                None => r == Err::<Vec<u8>, BranchError>(BranchError::NotFound) && final(self).files@ == old(self).files@,
            },
    {
        let mut p = heads_bytes();
        push_all(&mut p, name);
        match self.read_symref(&p) {
            None => Err(BranchError::NotFound),
            Some(oid) => {
                let ghost before = self.files@;
                let mut i: usize = 0;
                while i < self.files.len() && compare_bytes(&self.files[i].0, &p) != 0
                    invariant
                        i <= self.files@.len(),
                        self.files@ == before,
                        forall|k: int| 0 <= k < i ==> (#[trigger] self.files@[k]).0@ != p@,
                    decreases self.files@.len() - i,
                {
                    i += 1;
                }
                if i < self.files.len() {
                    self.files.remove(i);
                    proof {
                        let f = self.files@;
                        assert forall|a: int, b: int| 0 <= a < b < f.len() implies crate::codec::bytes_lt(f[a].0@, f[b].0@) by {
                            let oa = if a < i { a } else { a + 1 };
                            let ob = if b < i { b } else { b + 1 };
                            assert(f[a] == before[oa] && f[b] == before[ob]);
                        }
                        assert forall|k: int| 0 <= k < f.len() implies (#[trigger] f[k]).0@ != p@ by {
                            if k < i {
                                assert(f[k] == before[k]);
                            } else {
                                assert(f[k] == before[k + 1]);
                                crate::codec::lemma_lt_asymmetric(before[i as int].0@, before[k + 1].0@);
                            }
                        }
                        assert forall|q: Seq<u8>| q != p@ implies content_of(f, q) == content_of(before, q) by {
                            if content_of(before, q) is Some {
                                let j = content_index(before, q);
                                assert(maps_to(before, q, before[j].1));
                                lemma_content_of_maps(before, q);
                                let jj = if j < i { j } else { j - 1 };
                                assert(j != i);
                                assert(f[jj] == before[j]);
                                assert(maps_to(f, q, before[j].1));
                                lemma_content_of_maps(f, q);
                            }
                            if content_of(f, q) is Some {
                                let j = content_index(f, q);
                                let oj = if j < i { j } else { j + 1 };
                                assert(f[j] == before[oj]);
                            }
                        }
                    }
                }
                Ok(oid)
            },
        }
    }

    /// The branches: every reference file under `refs/heads/`, as a symbolic reference, in
    /// path order.
    pub fn list_branches(&self) -> (r: Vec<Ref>)
        requires
            self.wf(),
        ensures
            forall|k1: int, k2: int|
                0 <= k1 < k2 < r@.len() ==> crate::codec::bytes_lt(ref_view(#[trigger] r@[k1]).1, ref_view(#[trigger] r@[k2]).1),
            forall|k: int| 0 <= k < r@.len() ==> (#[trigger] r@[k]) is SymRef && starts_with(ref_view(r@[k]).1, heads_prefix())
                && exists|i: int| 0 <= i < self.files@.len() && (#[trigger] self.files@[i]).0@ == ref_view(r@[k]).1,
            forall|i: int| 0 <= i < self.files@.len() && starts_with((#[trigger] self.files@[i]).0@, heads_prefix()) ==> exists|k: int|
                0 <= k < r@.len() && (#[trigger] r@[k]) is SymRef && ref_view(r@[k]).1 == self.files@[i].0@,
    {
        let pre = heads_bytes();
        let mut out: Vec<Ref> = Vec::new();
        let mut i: usize = 0;
        while i < self.files.len()
            invariant
                self.wf(),
                i <= self.files@.len(),
                pre@ == heads_prefix(),
                forall|k: int| 0 <= k < out@.len() ==> exists|j: int| 0 <= j < i && (#[trigger] self.files@[j]).0@ == ref_view(#[trigger] out@[k]).1,
                forall|k1: int, k2: int|
                    0 <= k1 < k2 < out@.len() ==> crate::codec::bytes_lt(ref_view(#[trigger] out@[k1]).1, ref_view(#[trigger] out@[k2]).1),
                forall|k: int| 0 <= k < out@.len() ==> (#[trigger] out@[k]) is SymRef && starts_with(ref_view(out@[k]).1, heads_prefix())
                    && exists|j: int| 0 <= j < self.files@.len() && (#[trigger] self.files@[j]).0@ == ref_view(out@[k]).1,
                forall|j: int| 0 <= j < i && starts_with((#[trigger] self.files@[j]).0@, heads_prefix()) ==> exists|k: int|
                    0 <= k < out@.len() && (#[trigger] out@[k]) is SymRef && ref_view(out@[k]).1 == self.files@[j].0@,
            decreases self.files@.len() - i,
        {
            if starts_with_exec(&self.files[i].0, &pre) {
                let ghost before = out@;
                let p = copy_bytes(&self.files[i].0);
                out.push(Ref::SymRef { path: p });
                proof {
                    assert(ref_view(out@[out@.len() - 1]).1 == self.files@[i as int].0@);
                    assert forall|k: int| 0 <= k < out@.len() implies exists|j: int| 0 <= j < i + 1 && (#[trigger] self.files@[j]).0@ == ref_view(#[trigger] out@[k]).1 by {
                        if k < before.len() {
                            assert(out@[k] == before[k]);
                            let j = choose|j: int| 0 <= j < i && (#[trigger] self.files@[j]).0@ == ref_view(before[k]).1;
                        } else {
                            assert(self.files@[i as int].0@ == ref_view(out@[k]).1);
                        }
                    }
                    assert forall|k1: int, k2: int|
                        0 <= k1 < k2 < out@.len() implies crate::codec::bytes_lt(ref_view(#[trigger] out@[k1]).1, ref_view(#[trigger] out@[k2]).1) by {
                        assert(out@[k1] == before[k1]);
                        if k2 < before.len() {
                            assert(out@[k2] == before[k2]);
                        } else {
                            let j = choose|j: int| 0 <= j < i && (#[trigger] self.files@[j]).0@ == ref_view(before[k1]).1;
                            assert(crate::codec::bytes_lt(self.files@[j].0@, self.files@[i as int].0@));
                        }
                    }
                    assert forall|j: int| 0 <= j < i + 1 && starts_with((#[trigger] self.files@[j]).0@, heads_prefix()) implies exists|k: int|
                        0 <= k < out@.len() && (#[trigger] out@[k]) is SymRef && ref_view(out@[k]).1 == self.files@[j].0@ by {
                        if j < i {
                            let k = choose|k: int| 0 <= k < before.len() && (#[trigger] before[k]) is SymRef && ref_view(before[k]).1 == self.files@[j].0@;
                            assert(out@[k] == before[k]);
                        } else {
                            assert(out@[out@.len() - 1] is SymRef);
                        }
                    }
                    assert forall|k: int| 0 <= k < out@.len() implies (#[trigger] out@[k]) is SymRef && starts_with(ref_view(out@[k]).1, heads_prefix())
                        && exists|j: int| 0 <= j < self.files@.len() && (#[trigger] self.files@[j]).0@ == ref_view(out@[k]).1 by {
                        if k < before.len() {
                            assert(out@[k] == before[k]);
                        }
                    }
                }
            }
            i += 1;
        }
        out
    }

    /// The short name of a symbolic reference: its path without `refs/heads/` when it is a
    /// branch, else its path.
    pub fn ref_short_name(&self, r: &Ref) -> (s: Vec<u8>)
        requires
            r is SymRef,
        ensures
            starts_with(r->SymRef_path@, heads_prefix()) ==> s@ == r->SymRef_path@.subrange(heads_prefix().len() as int, r->SymRef_path@.len() as int),
            !starts_with(r->SymRef_path@, heads_prefix()) ==> s@ == r->SymRef_path@,
    {
        match r {
            Ref::SymRef { path } => {
                let pre = heads_bytes();
                if starts_with_exec(path, &pre) {
                    slice_to_vec(path, pre.len(), path.len())
                } else {
                    copy_bytes(path)
                }
            },
            Ref::Ref { oid } => copy_bytes(oid),
        }
    }
}

} // verus!

verus! {

/// Where `HEAD` stands: on a branch (its short name), or detached.
#[derive(Debug, PartialEq, Eq)]
pub enum HeadState {
    Branch { name: Vec<u8> },
    Detached,
}

/// The notices a checkout prints, in order.
#[derive(Clone, Copy, Debug, PartialEq, Eq, Structural)]
pub struct CheckoutNotices {
    /// `Previous HEAD position was ...`: HEAD was detached and leaves its commit.
    pub previous_position: bool,
    /// The detached-HEAD explanation: HEAD becomes detached from a branch.
    pub detachment: bool,
    /// `Already on '<branch>'` rather than `Switched to branch '<branch>'`.
    pub already_on: bool,
    /// `HEAD is now at ...`: HEAD ends detached.
    pub head_now_at: bool,
}

impl Refs {
    /// Where `HEAD` stands.
    pub fn head_state(&self) -> (r: HeadState)
        requires
            self.wf(),
        ensures
            match r {
                HeadState::Detached => current_spec(self.files@, head_name(), MAX_SYMREF_DEPTH as nat) == head_name(),
                HeadState::Branch { name } => {
                    let p = current_spec(self.files@, head_name(), MAX_SYMREF_DEPTH as nat);
                    p != head_name() && (starts_with(p, heads_prefix()) ==> name@ == p.subrange(heads_prefix().len() as int, p.len() as int))
                        && (!starts_with(p, heads_prefix()) ==> name@ == p)
                },
            },
    {
        let h = head_bytes();
        let cur = self.current_ref(&h);
        match &cur {
            Ref::SymRef { path } => {
                if compare_bytes(path, &h) == 0 {
                    HeadState::Detached
                } else {
                    HeadState::Branch { name: self.ref_short_name(&cur) }
                }
            },
            Ref::Ref { .. } => HeadState::Detached,
        }
    }
}

/// Which notices a checkout prints, from where HEAD stood and stands and whether it moved to
/// another commit.
pub fn checkout_notices(before: &HeadState, after: &HeadState, moved: bool) -> (r: CheckoutNotices)
    ensures
        r.previous_position == (before == HeadState::Detached && moved),
        r.detachment == (before != HeadState::Detached && after == HeadState::Detached),
        r.head_now_at == (after == HeadState::Detached),
        r.already_on == match (before, after) {
            (HeadState::Branch { name: a }, HeadState::Branch { name: b }) => a@ == b@,
            _ => false,
        },
{
    let was_detached = match before {
        HeadState::Detached => true,
        HeadState::Branch { .. } => false,
    };
    let now_detached = match after {
        HeadState::Detached => true,
        HeadState::Branch { .. } => false,
    };
    let already_on = match (before, after) {
        (HeadState::Branch { name: a }, HeadState::Branch { name: b }) => compare_bytes(a, b) == 0,
        _ => false,
    };
    CheckoutNotices {
        previous_position: was_detached && moved,
        detachment: !was_detached && now_detached,
        already_on,
        head_now_at: now_detached,
    }
}

} // verus!
