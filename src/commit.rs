use vstd::prelude::*;

use crate::codec::{copy_bytes, push_all, slice_to_vec};

verus! {

/// Who made a commit and when: `Name <email> <seconds> <±HHMM>` on one line, the time part
/// kept as written.
#[derive(Debug)]
pub struct Author {
    pub name: Vec<u8>,
    pub email: Vec<u8>,
    pub time: Vec<u8>,
}

/// The identity line of an author: name, ` <`, email, `> `, time.
pub open spec fn author_line(name: Seq<u8>, email: Seq<u8>, time: Seq<u8>) -> Seq<u8> {
    name + seq![32u8, 60u8] + email + seq![62u8, 32u8] + time
}

impl Author {
    /// The identity line of this author.
    pub fn to_bytes(&self) -> (r: Vec<u8>)
        ensures
            r@ == author_line(self.name@, self.email@, self.time@),
    {
        let mut r = copy_bytes(&self.name);
        r.push(32);
        r.push(60);
        push_all(&mut r, &self.email);
        r.push(62);
        r.push(32);
        push_all(&mut r, &self.time);
        assert(r@ =~= author_line(self.name@, self.email@, self.time@));
        r
    }
}

/// A snapshot: root tree and optional parent (both 40-digit hex ids), author and committer
/// lines, message.
#[derive(Debug)]
pub struct Commit {
    pub parent: Option<Vec<u8>>,
    pub tree_oid: Vec<u8>,
    pub author: Vec<u8>,
    pub committer: Vec<u8>,
    pub message: Vec<u8>,
}

/// `tree `.
pub open spec fn tree_word() -> Seq<u8> {
    seq![116u8, 114u8, 101u8, 101u8, 32u8]
}

/// `parent `.
pub open spec fn parent_word() -> Seq<u8> {
    seq![112u8, 97u8, 114u8, 101u8, 110u8, 116u8, 32u8]
}

/// `author `.
pub open spec fn author_word() -> Seq<u8> {
    seq![97u8, 117u8, 116u8, 104u8, 111u8, 114u8, 32u8]
}

/// `committer `.
pub open spec fn committer_word() -> Seq<u8> {
    seq![99u8, 111u8, 109u8, 109u8, 105u8, 116u8, 116u8, 101u8, 114u8, 32u8]
}

/// The body of a commit: `tree`, optional `parent`, `author` and `committer` header lines, a
/// blank line, the message.
pub open spec fn commit_bytes(
    parent: Option<Seq<u8>>,
    tree: Seq<u8>,
    author: Seq<u8>,
    committer: Seq<u8>,
    message: Seq<u8>,
) -> Seq<u8> {
    tree_word() + tree + seq![10u8] + match parent {
        Some(p) => parent_word() + p + seq![10u8],
        None => Seq::<u8>::empty(),
    } + author_word() + author + seq![10u8] + committer_word() + committer + seq![10u8, 10u8] + message
}

/// The bytes of an optional vector.
pub open spec fn opt_view(o: Option<Vec<u8>>) -> Option<Seq<u8>> {
    match o {
        Some(v) => Some(v@),
        None => None,
    }
}

/// Whether `s` holds no newline.
pub open spec fn one_line(s: Seq<u8>) -> bool {
    forall|i: int| 0 <= i < s.len() ==> #[trigger] s[i] != 10
}

/// A commit that its body gives back exactly: 40-byte ids and one-line identities.
pub open spec fn commit_exact(
    parent: Option<Seq<u8>>,
    tree: Seq<u8>,
    author: Seq<u8>,
    committer: Seq<u8>,
) -> bool {
    &&& tree.len() == 40 && one_line(tree)
    &&& parent is Some ==> parent->0.len() == 40 && one_line(parent->0)
    &&& one_line(author)
    &&& one_line(committer)
}

impl Commit {
    /// A commit of `tree_oid` after `parent`, by `author` (also the committer), with `message`.
    pub fn new(parent: Option<Vec<u8>>, tree_oid: Vec<u8>, author: &Author, message: Vec<u8>) -> (r: Commit)
        ensures
            r.parent == parent,
            r.tree_oid == tree_oid,
            r.author@ == author_line(author.name@, author.email@, author.time@),
            r.committer@ == r.author@,
            r.message == message,
    {
        let line = author.to_bytes();
        let committer = copy_bytes(&line);
        Commit { parent, tree_oid, author: line, committer, message }
    }

    /// The first line of the message.
    pub fn title_line(&self) -> (r: Vec<u8>)
        ensures
            r@ == title_of(self.message@),
            one_line(r@),
            r@.len() <= self.message@.len(),
            r@ == self.message@.subrange(0, r@.len() as int),
            r@.len() < self.message@.len() ==> self.message@[r@.len() as int] == 10,
    {
        let mut k: usize = 0;
        while k < self.message.len() && self.message[k] != 10
            invariant
                k <= self.message@.len(),
                forall|i: int| 0 <= i < k ==> self.message@[i] != 10,
            decreases self.message@.len() - k,
        {
            k += 1;
        }
        let r = slice_to_vec(&self.message, 0, k);
        proof {
            let m = self.message@;
            assert(first_line_end(m, k as int));
            let c = choose|c: int| first_line_end(m, c);
            if c < k {
                assert(m[c] != 10);
            }
            if k < c {
                assert(m[k as int] != 10);
            }
        }
        r
    }

    /// The body of this commit.
    pub fn to_bytes(&self) -> (r: Vec<u8>)
        ensures
            r@ == commit_bytes(
                opt_view(self.parent),
                self.tree_oid@,
                self.author@,
                self.committer@,
                self.message@,
            ),
    {
        let mut r: Vec<u8> = Vec::new();
        push_word(&mut r, 0);
        push_all(&mut r, &self.tree_oid);
        r.push(10);
        let ghost after_tree = r@;
        match &self.parent {
            Some(p) => {
                push_word(&mut r, 1);
                push_all(&mut r, p);
                r.push(10);
            },
            None => {},
        }
        let ghost after_parent = r@;
        push_word(&mut r, 2);
        push_all(&mut r, &self.author);
        r.push(10);
        push_word(&mut r, 3);
        push_all(&mut r, &self.committer);
        r.push(10);
        r.push(10);
        push_all(&mut r, &self.message);
        proof {
            let pp = match opt_view(self.parent) {
                Some(p) => parent_word() + p + seq![10u8],
                None => Seq::<u8>::empty(),
            };
            assert(after_parent =~= after_tree + pp);
            assert(r@ =~= commit_bytes(
                opt_view(self.parent),
                self.tree_oid@,
                self.author@,
                self.committer@,
                self.message@,
            ));
        }
        r
    }
}

/// The header words, by number: `tree `, `parent `, `author `, `committer `.
pub open spec fn word(k: int) -> Seq<u8> {
    if k == 0 {
        tree_word()
    } else if k == 1 {
        parent_word()
    } else if k == 2 {
        author_word()
    } else {
        committer_word()
    }
}

/// Appends header word `k`.
pub fn push_word(v: &mut Vec<u8>, k: u8)
    requires
        k < 4,
    ensures
        final(v)@ == old(v)@ + word(k as int),
{
    let w: Vec<u8> = if k == 0 {
        vec![116u8, 114u8, 101u8, 101u8, 32u8]
    } else if k == 1 {
        vec![112u8, 97u8, 114u8, 101u8, 110u8, 116u8, 32u8]
    } else if k == 2 {
        vec![97u8, 117u8, 116u8, 104u8, 111u8, 114u8, 32u8]
    } else {
        vec![99u8, 111u8, 109u8, 109u8, 105u8, 116u8, 116u8, 101u8, 114u8, 32u8]
    };
    assert(w@ =~= word(k as int));
    push_all(v, &w);
}

} // verus!

verus! {

/// Whether `s` holds `pat` at `i`.
pub open spec fn at(s: Seq<u8>, i: int, pat: Seq<u8>) -> bool {
    0 <= i && i + pat.len() <= s.len() && s.subrange(i, i + pat.len()) == pat
}

/// Whether `data` holds header word `k` at `pos`.
pub fn word_at(data: &[u8], pos: usize, k: u8) -> (r: bool)
    requires
        k < 4,
    ensures
        r == at(data@, pos as int, word(k as int)),
{
    let mut w: Vec<u8> = Vec::new();
    push_word(&mut w, k);
    assert(w@ =~= word(k as int));
    if pos > data.len() || data.len() - pos < w.len() {
        return false;
    }
    let dl = data.len();
    let mut i: usize = 0;
    while i < w.len()
        invariant
            i <= w@.len(),
            k < 4,
            w@ == word(k as int),
            dl == data@.len(),
            pos + w@.len() <= data@.len(),
            forall|j: int| 0 <= j < i ==> data@[pos + j] == w@[j],
        decreases w@.len() - i,
    {
        assert(pos + i < data@.len());
        if data[pos + i] != w[i] {
            proof {
                assert(data@.subrange(pos as int, pos + w@.len())[i as int] != w@[i as int]);
                assert(data@.subrange(pos as int, pos + w@.len()) != word(k as int));
            }
            return false;
        }
        i += 1;
    }
    assert(data@.subrange(pos as int, pos + w@.len()) =~= w@);
    true
}

/// Whether `v` holds no newline.
pub fn no_newline(v: &[u8]) -> (r: bool)
    ensures
        r == one_line(v@),
{
    let mut k: usize = 0;
    while k < v.len()
        invariant
            k <= v@.len(),
            forall|i: int| 0 <= i < k ==> v@[i] != 10,
        decreases v@.len() - k,
    {
        if v[k] == 10 {
            return false;
        }
        k += 1;
    }
    true
}

/// The first newline at or after `pos`.
pub fn line_end(data: &[u8], pos: usize) -> (r: Option<usize>)
    requires
        pos <= data@.len(),
    ensures
        match r {
            Some(e) => pos <= e < data@.len() && data@[e as int] == 10 && forall|i: int| pos <= i < e ==> data@[i] != 10,
            None => forall|i: int| pos <= i < data@.len() ==> data@[i] != 10,
        },
{
    let mut e: usize = pos;
    while e < data.len() && data[e] != 10
        invariant
            pos <= e <= data@.len(),
            forall|i: int| pos <= i < e ==> data@[i] != 10,
        decreases data@.len() - e,
    {
        e += 1;
    }
    if e == data.len() {
        None
    } else {
        Some(e)
    }
}

/// Where each part of an exact commit's body stands.
#[verifier::spinoff_prover]
#[verifier::rlimit(80)]
pub proof fn lemma_commit_layout(
    data: Seq<u8>,
    parent: Option<Seq<u8>>,
    tree: Seq<u8>,
    author: Seq<u8>,
    committer: Seq<u8>,
    message: Seq<u8>,
)
    requires
        data == commit_bytes(parent, tree, author, committer, message),
        commit_exact(parent, tree, author, committer),
    ensures
        ({
            let p = if parent is Some { 48int } else { 0int };
            let a = 46 + p;
            let al = author.len() as int;
            let c = a + 7 + al + 1;
            let cl = committer.len() as int;
            &&& at(data, 0, word(0))
            &&& data.subrange(5, 45) == tree
            &&& data[45] == 10
            &&& (parent is Some ==> at(data, 46, word(1)) && data.subrange(53, 93) == parent->0 && data[93] == 10)
            &&& (parent is None ==> !at(data, 46, word(1)))
            &&& at(data, a, word(2))
            &&& data.subrange(a + 7, a + 7 + al) == author
            &&& data[a + 7 + al] == 10
            &&& forall|i: int| a + 7 <= i < a + 7 + al ==> data[i] != 10
            &&& at(data, c, word(3))
            &&& data.subrange(c + 10, c + 10 + cl) == committer
            &&& data[c + 10 + cl] == 10
            &&& forall|i: int| c + 10 <= i < c + 10 + cl ==> data[i] != 10
            &&& data[c + 10 + cl + 1] == 10
            &&& data.subrange(c + 10 + cl + 2, data.len() as int) == message
        }),
{
    let pp = match parent {
        Some(q) => parent_word() + q + seq![10u8],
        None => Seq::<u8>::empty(),
    };
    let p = if parent is Some { 48int } else { 0int };
    let a = 46 + p;
    let al = author.len() as int;
    let c = a + 7 + al + 1;
    let cl = committer.len() as int;
    let head = tree_word() + tree + seq![10u8];
    assert(data == head + pp + author_word() + author + seq![10u8] + committer_word() + committer + seq![10u8, 10u8] + message);
    assert(data.subrange(0, 5) =~= word(0));
    assert(data.subrange(5, 45) =~= tree);
    if parent is Some {
        assert(data.subrange(46, 53) =~= word(1));
        assert(data.subrange(53, 93) =~= parent->0);
    } else {
        if at(data, 46, word(1)) {
            assert(data.subrange(46, 53)[0] == data[46]);
        }
    }
    assert(data.subrange(a, a + 7) =~= word(2));
    assert(data.subrange(a + 7, a + 7 + al) =~= author);
    assert forall|i: int| a + 7 <= i < a + 7 + al implies data[i] != 10 by {
        assert(data[i] == author[i - a - 7]);
    }
    assert(data.subrange(c, c + 10) =~= word(3));
    assert(data.subrange(c + 10, c + 10 + cl) =~= committer);
    assert forall|i: int| c + 10 <= i < c + 10 + cl implies data[i] != 10 by {
        assert(data[i] == committer[i - c - 10]);
    }
    assert(data.subrange(c + 10 + cl + 2, data.len() as int) =~= message);
}

impl Commit {
    /// Reads a commit body. Succeeds exactly on bodies of exact commits, giving that commit.
    #[verifier::spinoff_prover]
    #[verifier::rlimit(60)]
    pub fn parse(data: &[u8]) -> (r: Option<Commit>)
        ensures
            match r {
                Some(c) => commit_exact(opt_view(c.parent), c.tree_oid@, c.author@, c.committer@) && data@ == commit_bytes(
                    opt_view(c.parent),
                    c.tree_oid@,
                    c.author@,
                    c.committer@,
                    c.message@,
                ),
                None => forall|p: Option<Seq<u8>>, t: Seq<u8>, a: Seq<u8>, cm: Seq<u8>, m: Seq<u8>|
                    commit_exact(p, t, a, cm) ==> data@ != commit_bytes(p, t, a, cm, m),
            },
    {
        let ghost d = data@;
        let ghost has = exists|p: Option<Seq<u8>>, t: Seq<u8>, a: Seq<u8>, cm: Seq<u8>, m: Seq<u8>|
            commit_exact(p, t, a, cm) && d == commit_bytes(p, t, a, cm, m);
        let ghost w = choose|w: (Option<Seq<u8>>, Seq<u8>, Seq<u8>, Seq<u8>, Seq<u8>)|
            commit_exact(w.0, w.1, w.2, w.3) && d == commit_bytes(w.0, w.1, w.2, w.3, w.4);
        proof {
            if has {
                let (p, t, a, cm, m) = choose|p: Option<Seq<u8>>, t: Seq<u8>, a: Seq<u8>, cm: Seq<u8>, m: Seq<u8>|
                    commit_exact(p, t, a, cm) && d == commit_bytes(p, t, a, cm, m);
                assert(commit_exact(w.0, w.1, w.2, w.3) && d == commit_bytes(w.0, w.1, w.2, w.3, w.4)) by {
                    let ww = (p, t, a, cm, m);
                    assert(commit_exact(ww.0, ww.1, ww.2, ww.3) && d == commit_bytes(ww.0, ww.1, ww.2, ww.3, ww.4));
                }
                lemma_commit_layout(d, w.0, w.1, w.2, w.3, w.4);
            }
        }
        if !word_at(data, 0, 0) || data.len() < 46 || data[45] != 10 {
            return None;
        }
        let tree = slice_to_vec(data, 5, 45);
        if !no_newline(&tree) {
            return None;
        }
        let mut pos: usize = 46;
        let mut parent: Option<Vec<u8>> = None;
        if word_at(data, 46, 1) {
            if data.len() < 94 || data[93] != 10 {
                return None;
            }
            let p = slice_to_vec(data, 53, 93);
            if !no_newline(&p) {
                return None;
            }
            parent = Some(p);
            pos = 94;
        }
        if !word_at(data, pos, 2) {
            return None;
        }
        let a_end = match line_end(data, pos + 7) {
            Some(e) => e,
            None => return None,
        };
        let author = slice_to_vec(data, pos + 7, a_end);
        let c = a_end + 1;
        if !word_at(data, c, 3) {
            return None;
        }
        let c_end = match line_end(data, c + 10) {
            Some(e) => e,
            None => return None,
        };
        let committer = slice_to_vec(data, c + 10, c_end);
        if c_end + 1 >= data.len() || data[c_end + 1] != 10 {
            proof {
                if has {
                    assert(c_end == c + 10 + w.3.len());
                }
            }
            return None;
        }
        let message = slice_to_vec(data, c_end + 2, data.len());
        let r = Commit { parent, tree_oid: tree, author, committer, message };
        proof {
            assert(one_line(r.author@)) by {
                assert forall|i: int| 0 <= i < r.author@.len() implies #[trigger] r.author@[i] != 10 by {
                    assert(r.author@[i] == d[pos + 7 + i]);
                }
            }
            assert(one_line(r.committer@)) by {
                assert forall|i: int| 0 <= i < r.committer@.len() implies #[trigger] r.committer@[i] != 10 by {
                    assert(r.committer@[i] == d[c + 10 + i]);
                }
            }
            let pp = match opt_view(r.parent) {
                Some(q) => parent_word() + q + seq![10u8],
                None => Seq::<u8>::empty(),
            };
            assert(d.subrange(0, 5) =~= tree_word());
            if r.parent is Some {
                assert(d.subrange(46, 53) =~= parent_word());
                assert(d.subrange(46, 94) =~= pp);
            }
            assert(d.subrange(pos as int, pos + 7) =~= author_word());
            assert(d.subrange(c as int, c + 10) =~= committer_word());
            assert(d =~= d.subrange(0, 5) + d.subrange(5, 45) + seq![10u8] + d.subrange(46, pos as int) + d.subrange(pos as int, pos + 7)
                + d.subrange(pos + 7, a_end as int) + seq![10u8] + d.subrange(c as int, c + 10) + d.subrange(c + 10, c_end as int)
                + seq![10u8, 10u8] + d.subrange(c_end + 2, d.len() as int));
            assert(d.subrange(46, pos as int) =~= pp);
        }
        Some(r)
    }
}

} // verus!

verus! {

/// Whether `s` holds no byte `c`.
pub open spec fn lacks(s: Seq<u8>, c: u8) -> bool {
    forall|i: int| 0 <= i < s.len() ==> #[trigger] s[i] != c
}

impl Author {
    /// Splits an identity line at its first `<` and the first `>` after it. Succeeds exactly
    /// on lines `name <email> time` whose name holds no `<` and whose email holds no `>`.
    pub fn parse(line: &[u8]) -> (r: Option<Author>)
        ensures
            match r {
                Some(a) => author_line(a.name@, a.email@, a.time@) == line@ && lacks(a.name@, 60) && lacks(a.email@, 62)
                    && author_time(line@) == Some(a.time@),
                None => (forall|n: Seq<u8>, e: Seq<u8>, t: Seq<u8>|
                    lacks(n, 60) && lacks(e, 62) ==> author_line(n, e, t) != line@) && author_time(line@) is None,
            },
    {
        let mut lt: usize = 0;
        while lt < line.len() && line[lt] != 60
            invariant
                lt <= line@.len(),
                forall|i: int| 0 <= i < lt ==> line@[i] != 60,
            decreases line@.len() - lt,
        {
            lt += 1;
        }
        let mut gt: usize = if lt < line.len() { lt + 1 } else { lt };
        while gt < line.len() && line[gt] != 62
            invariant
                lt < line@.len() ==> lt < gt,
                gt <= line@.len(),
                forall|i: int| lt < i < gt ==> line@[i] != 62,
            decreases line@.len() - gt,
        {
            gt += 1;
        }
        let ok = lt >= 1 && lt < line.len() && line[lt - 1] == 32 && gt < line.len() && line.len() - gt > 1
            && line[gt + 1] == 32;
        if !ok {
            proof {
                assert forall|n: Seq<u8>, e: Seq<u8>, t: Seq<u8>| lacks(n, 60) && lacks(e, 62) implies author_line(n, e, t) != line@ by {
                    if author_line(n, e, t) == line@ {
                        let l = line@;
                        let nl = n.len() as int;
                        assert(l[nl + 1] == 60);
                        assert forall|i: int| 0 <= i < n.len() implies l[i] != 60 by {
                            assert(l[i] == n[i]);
                        }
                        if lt < nl + 1 {
                            if lt < nl {
                                assert(l[lt as int] == n[lt as int]);
                            } else {
                                assert(l[lt as int] == 32);
                            }
                        }
                        if lt > nl + 1 {
                            assert(l[nl + 1] != 60);
                        }
                        let g = nl + 2 + e.len() as int;
                        assert(l[g] == 62);
                        assert forall|i: int| nl + 1 < i < g implies l[i] != 62 by {
                            assert(l[i] == e[i - nl - 2]);
                        }
                        if gt > g {
                            assert(l[g] != 62);
                        }
                        if gt < g {
                            assert(l[gt as int] == e[gt - nl - 2]);
                        }
                    }
                }
            }
            return None;
        }
        let name = slice_to_vec(line, 0, lt - 1);
        let email = slice_to_vec(line, lt + 1, gt);
        let time = slice_to_vec(line, gt + 2, line.len());
        proof {
            assert(line@ =~= author_line(name@, email@, time@));
            assert forall|i: int| 0 <= i < name@.len() implies #[trigger] name@[i] != 60 by {
                assert(name@[i] == line@[i]);
            }
            assert forall|i: int| 0 <= i < email@.len() implies #[trigger] email@[i] != 62 by {
                assert(email@[i] == line@[lt + 1 + i]);
            }
        }
        proof {
            assert(splits_as(line@, name@, email@, time@));
            let (n2, e2, t2) = choose|n: Seq<u8>, e: Seq<u8>, t: Seq<u8>| splits_as(line@, n, e, t);
            lemma_split_unique(line@, name@, email@, time@, n2, e2, t2);
        }
        Some(Author { name, email, time })
    }
}

} // verus!

verus! {

/// The calendar date (`YYYY-MM-DD`, in the time's own offset) of an identity's time part.
pub uninterp spec fn short_date_of(time: Seq<u8>) -> Option<Seq<u8>>;

impl Author {
    /// Relies on chrono's `DateTime::parse_from_str` with `%s %z` and `format("%Y-%m-%d")`:
    /// the date of the time part, which depends on that text alone; `None` when chrono cannot
    /// read it.
    #[verifier::external_body]
    pub fn short_date(&self) -> (r: Option<Vec<u8>>)
        ensures
            match r {
                Some(v) => short_date_of(self.time@) == Some(v@),
                None => short_date_of(self.time@) is None,
            },
    {
        let s = std::str::from_utf8(&self.time).ok()?;
        let t = chrono::DateTime::parse_from_str(s, "%s %z").ok()?;
        Some(t.format("%Y-%m-%d").to_string().into_bytes())
    }
}

} // verus!

verus! {

/// Whether `line` splits as `name <email> time` with no `<` in the name and no `>` in the email.
pub open spec fn splits_as(line: Seq<u8>, n: Seq<u8>, e: Seq<u8>, t: Seq<u8>) -> bool {
    lacks(n, 60) && lacks(e, 62) && author_line(n, e, t) == line
}

/// The time part of an identity line, if it splits.
pub open spec fn author_time(line: Seq<u8>) -> Option<Seq<u8>> {
    if exists|n: Seq<u8>, e: Seq<u8>, t: Seq<u8>| splits_as(line, n, e, t) {
        let (n, e, t) = choose|n: Seq<u8>, e: Seq<u8>, t: Seq<u8>| splits_as(line, n, e, t);
        Some(t)
    } else {
        None
    }
}

/// Whether the first line of `m` ends at `k`: at its first newline, or at its end.
pub open spec fn first_line_end(m: Seq<u8>, k: int) -> bool {
    0 <= k <= m.len() && (k == m.len() || m[k] == 10) && forall|i: int| 0 <= i < k ==> #[trigger] m[i] != 10
}

/// The first line of a message: everything before its first newline.
pub open spec fn title_of(m: Seq<u8>) -> Seq<u8> {
    m.subrange(0, choose|k: int| first_line_end(m, k))
}

/// An identity line splits in one way only.
pub proof fn lemma_split_unique(line: Seq<u8>, n1: Seq<u8>, e1: Seq<u8>, t1: Seq<u8>, n2: Seq<u8>, e2: Seq<u8>, t2: Seq<u8>)
    requires
        splits_as(line, n1, e1, t1),
        splits_as(line, n2, e2, t2),
    ensures
        n1 == n2 && e1 == e2 && t1 == t2,
{
    let a1 = n1.len() as int;
    let a2 = n2.len() as int;
    assert(line[a1 + 1] == 60);
    assert(line[a2 + 1] == 60);
    if a1 < a2 {
        assert(line[a1 + 1] == n2[a1 + 1] || a1 + 1 == a2);
        if a1 + 1 < a2 {
            assert(n2[a1 + 1] != 60);
        } else {
            assert(line[a2] == 32);
        }
    }
    if a2 < a1 {
        if a2 + 1 < a1 {
            assert(line[a2 + 1] == n1[a2 + 1]);
            assert(n1[a2 + 1] != 60);
        } else {
            assert(line[a1] == 32);
        }
    }
    assert(n1 =~= line.subrange(0, a1));
    assert(n2 =~= line.subrange(0, a2));
    let g1 = a1 + 2 + e1.len();
    let g2 = a1 + 2 + e2.len();
    assert(line[g1] == 62);
    assert(line[g2] == 62);
    if g1 < g2 {
        assert(line[g1] == e2[g1 - a1 - 2]);
    }
    if g2 < g1 {
        assert(line[g2] == e1[g2 - a1 - 2]);
    }
    assert(e1 =~= line.subrange(a1 + 2, g1));
    assert(e2 =~= line.subrange(a1 + 2, g2));
    assert(t1 =~= line.subrange(g1 + 2, line.len() as int));
    assert(t2 =~= line.subrange(g1 + 2, line.len() as int));
}

} // verus!
