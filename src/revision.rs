use vstd::prelude::*;

use crate::codec::{compare_bytes, copy_bytes, slice_to_vec};
use crate::object::ObjectKind;
use crate::refs::{invalid_name, is_valid_ref, ref_path_spec, resolve_spec, Refs, MAX_SYMREF_DEPTH};
use crate::status::{insert_keyed, keys_sorted, maps_to};

verus! {

/// A parsed revision: a name, the parent of a revision, or its `n`-th ancestor.
#[derive(Debug)]
pub enum Rev {
    Ref { name: Vec<u8> },
    Parent { rev: Box<Rev> },
    Ancestor { rev: Box<Rev>, n: i32 },
}

/// A revision as a mathematical value.
pub enum RevView {
    Ref(Seq<u8>),
    Parent(Box<RevView>),
    Ancestor(Box<RevView>, int),
}

/// The view of a parsed revision.
pub open spec fn rev_view(r: Rev) -> RevView
    decreases r,
{
    match r {
        Rev::Ref { name } => RevView::Ref(name@),
        Rev::Parent { rev } => RevView::Parent(Box::new(rev_view(*rev))),
        Rev::Ancestor { rev, n } => RevView::Ancestor(Box::new(rev_view(*rev)), n as int),
    }
}

/// Whether every byte of `s` from `from` on is an ASCII digit, and there is at least one.
pub open spec fn digits_from(s: Seq<u8>, from: int) -> bool {
    from < s.len() && forall|i: int| from <= i < s.len() ==> 48 <= #[trigger] s[i] <= 57
}

/// Where `~<digits>` starts at the end of `s`, after at least one byte: the last `~`.
pub open spec fn tilde_at(s: Seq<u8>, t: int) -> bool {
    1 <= t < s.len() && s[t] == 126 && digits_from(s, t + 1)
}

/// The name a revision's name part stands for: `@` means `HEAD`.
pub open spec fn alias(s: Seq<u8>) -> Seq<u8> {
    if s == seq![64u8] {
        crate::refs::head_name()
    } else {
        s
    }
}

/// The revision that `s` denotes: `<rev>^` is the parent, `<rev>~<n>` the `n`-th ancestor
/// (`n` a decimal number that fits 31 bits), anything else a name that must be a valid
/// reference name.
pub open spec fn parse_spec(s: Seq<u8>) -> Option<RevView>
    decreases s.len(),
{
    if s.len() >= 2 && s.last() == 94 {
        match parse_spec(s.drop_last()) {
            Some(r) => Some(RevView::Parent(Box::new(r))),
            None => None,
        }
    } else if exists|t: int| tilde_at(s, t) {
        let t = choose|t: int| tilde_at(s, t);
        let n = crate::codec::digits_value(s.subrange(t + 1, s.len() as int));
        if n <= 2147483647 {
            match parse_spec(s.subrange(0, t)) {
                Some(r) => Some(RevView::Ancestor(Box::new(r), n as int)),
                None => None,
            }
        } else {
            None
        }
    } else if !invalid_name(s) {
        Some(RevView::Ref(alias(s)))
    } else {
        None
    }
}

/// Only one position can start the trailing `~<digits>`.
pub proof fn lemma_tilde_unique(s: Seq<u8>, a: int, b: int)
    requires
        tilde_at(s, a),
        tilde_at(s, b),
    ensures
        a == b,
{
    if a < b {
        assert(48 <= s[b] <= 57);
    }
    if b < a {
        assert(48 <= s[a] <= 57);
    }
}

/// Parses a revision expression; `None` when it is not one.
pub fn parse(revision: &[u8]) -> (r: Option<Rev>)
    ensures
        match r {
            Some(x) => parse_spec(revision@) == Some(rev_view(x)),
            None => parse_spec(revision@) is None,
        },
    decreases revision@.len(),
{
    let n = revision.len();
    if n >= 2 && revision[n - 1] == 94 {
        let inner = slice_to_vec(revision, 0, n - 1);
        proof {
            assert(inner@ =~= revision@.drop_last());
        }
        return match parse(&inner) {
            Some(x) => Some(Rev::Parent { rev: Box::new(x) }),
            None => None,
        };
    }
    let mut t: usize = n;
    while t > 0 && 48 <= revision[t - 1] && revision[t - 1] <= 57
        invariant
            t <= n == revision@.len(),
            forall|i: int| t <= i < n ==> 48 <= #[trigger] revision@[i] <= 57,
        decreases t,
    {
        t -= 1;
    }
    if t >= 2 && t < n && revision[t - 1] == 126 {
        let tt = t - 1;
        proof {
            assert(tilde_at(revision@, tt as int));
        }
        let mut value: u64 = 0;
        let mut k: usize = t;
        let mut fits = true;
        while k < n
            invariant
                t <= k <= n == revision@.len(),
                forall|i: int| t <= i < n ==> 48 <= #[trigger] revision@[i] <= 57,
                fits ==> value as nat == crate::codec::digits_value(revision@.subrange(t as int, k as int)) && value <= 2147483647,
                !fits ==> crate::codec::digits_value(revision@.subrange(t as int, k as int)) > 2147483647,
            decreases n - k,
        {
            proof {
                let s2 = revision@.subrange(t as int, k + 1);
                assert(s2.drop_last() =~= revision@.subrange(t as int, k as int));
                assert(crate::codec::digits_value(s2) == crate::codec::digits_value(s2.drop_last()) * 10 + (s2.last() - 48) as nat);
            }
            if fits {
                let v2 = value * 10 + (revision[k] - 48) as u64;
                if v2 > 2147483647 {
                    fits = false;
                } else {
                    value = v2;
                }
            } else {
                proof {
                    let s2 = revision@.subrange(t as int, k + 1);
                    let d = crate::codec::digits_value(s2.drop_last());
                    assert(d * 10 >= d) by (nonlinear_arith)
                        requires
                            d >= 0,
                    ;
                }
            }
            k += 1;
        }
        let inner = slice_to_vec(revision, 0, tt);
        proof {
            let c = choose|c: int| tilde_at(revision@, c);
            lemma_tilde_unique(revision@, c, tt as int);
        }
        if !fits {
            return None;
        }
        return match parse(&inner) {
            Some(x) => Some(Rev::Ancestor { rev: Box::new(x), n: value as i32 }),
            None => None,
        };
    }
    proof {
        assert forall|c: int| !tilde_at(revision@, c) by {
            if tilde_at(revision@, c) {
                if c + 1 < t {
                    assert(48 <= revision@[c] <= 57);
                }
                if t < c + 1 {
                    assert(!(48 <= revision@[t - 1] <= 57));
                }
            }
        }
    }
    if !is_valid_ref(revision) {
        return None;
    }
    let at_sign = n == 1 && revision[0] == 64;
    if at_sign {
        assert(revision@ =~= seq![64u8]);
        Some(Rev::Ref { name: crate::refs::head_bytes() })
    } else {
        proof {
            if revision@ == seq![64u8] {
                assert(revision@[0] == 64);
            }
        }
        Some(Rev::Ref { name: copy_bytes(revision) })
    }
}

} // verus!

verus! {

/// Strictly increasing byte strings.
pub open spec fn strictly_sorted(a: Seq<Seq<u8>>) -> bool {
    forall|i: int, j: int| 0 <= i < j < a.len() ==> crate::codec::bytes_lt(a[i], a[j])
}

/// Two strictly increasing lists with the same members are the same list.
pub proof fn lemma_sorted_same(a: Seq<Seq<u8>>, b: Seq<Seq<u8>>)
    requires
        strictly_sorted(a),
        strictly_sorted(b),
        forall|x: Seq<u8>| a.contains(x) <==> b.contains(x),
    ensures
        a == b,
    decreases a.len(),
{
    if a.len() == 0 {
        if b.len() > 0 {
            assert(b.contains(b[0]));
        }
        assert(b =~= a);
    } else {
        assert(a.contains(a[0]));
        assert(b.len() > 0);
        assert(b.contains(b[0]));
        let i = choose|i: int| 0 <= i < b.len() && b[i] == a[0];
        let j = choose|j: int| 0 <= j < a.len() && a[j] == b[0];
        if a[0] != b[0] {
            assert(i > 0 && j > 0);
            assert(crate::codec::bytes_lt(b[0], b[i]));
            assert(crate::codec::bytes_lt(a[0], a[j]));
            crate::codec::lemma_lt_asymmetric(b[0], a[0]);
        }
        let a2 = a.drop_first();
        let b2 = b.drop_first();
        assert forall|x: Seq<u8>| a2.contains(x) <==> b2.contains(x) by {
            if a2.contains(x) {
                let k = choose|k: int| 0 <= k < a2.len() && a2[k] == x;
                assert(a.contains(x));
                assert(crate::codec::bytes_lt(a[0], a[k + 1]));
                crate::codec::lemma_lt_asymmetric(a[0], x);
                let m = choose|m: int| 0 <= m < b.len() && b[m] == x;
                assert(m != 0);
                assert(b2[m - 1] == x);
            }
            if b2.contains(x) {
                let k = choose|k: int| 0 <= k < b2.len() && b2[k] == x;
                assert(b.contains(x));
                assert(crate::codec::bytes_lt(b[0], b[k + 1]));
                crate::codec::lemma_lt_asymmetric(b[0], x);
                let m = choose|m: int| 0 <= m < a.len() && a[m] == x;
                assert(m != 0);
                assert(a2[m - 1] == x);
            }
        }
        lemma_sorted_same(a2, b2);
        assert(a =~= seq![a[0]] + a2);
        assert(b =~= seq![b[0]] + b2);
    }
}

/// The object ids in `ids` that start with `prefix`, as a strictly increasing list.
pub open spec fn matches_of(ids: Seq<Vec<u8>>, prefix: Seq<u8>) -> Seq<Seq<u8>> {
    choose|l: Seq<Seq<u8>>|
        strictly_sorted(l) && forall|x: Seq<u8>|
            l.contains(x) <==> (crate::refs::starts_with(x, prefix) && exists|i: int| 0 <= i < ids.len() && (#[trigger] ids[i])@ == x)
}

/// The ids in `ids` that start with `prefix`, in increasing order, each once.
pub fn prefix_match(ids: &Vec<Vec<u8>>, prefix: &[u8]) -> (r: Vec<Vec<u8>>)
    ensures
        crate::status::paths_view(r@) == matches_of(ids@, prefix@),
{
    let mut keyed: Vec<(Vec<u8>, bool)> = Vec::new();
    let mut i: usize = 0;
    while i < ids.len()
        invariant
            i <= ids@.len(),
            keys_sorted(keyed@),
            forall|x: Seq<u8>, b: bool| maps_to(keyed@, x, b) ==> b,
            forall|x: Seq<u8>|
                #[trigger] maps_to(keyed@, x, true) <==> (crate::refs::starts_with(x, prefix@) && exists|k: int| 0 <= k < i && (#[trigger] ids@[k])@ == x),
        decreases ids@.len() - i,
    {
        if crate::refs::starts_with_exec(&ids[i], prefix) {
            let ghost before = keyed@;
            insert_keyed(&mut keyed, copy_bytes(&ids[i]), true);
            proof {
                assert forall|x: Seq<u8>|
                    #[trigger] maps_to(keyed@, x, true) <==> (crate::refs::starts_with(x, prefix@) && exists|k: int| 0 <= k < i + 1 && (#[trigger] ids@[k])@ == x) by {
                    if x != ids@[i as int]@ {
                        assert(maps_to(keyed@, x, true) == maps_to(before, x, true));
                        if exists|k: int| 0 <= k < i + 1 && (#[trigger] ids@[k])@ == x {
                            let k = choose|k: int| 0 <= k < i + 1 && (#[trigger] ids@[k])@ == x;
                            assert(k != i);
                        }
                    } else {
                        assert(0 <= i < i + 1 && ids@[i as int]@ == x);
                    }
                }
            }
        } else {
            proof {
                assert forall|x: Seq<u8>|
                    #[trigger] maps_to(keyed@, x, true) <==> (crate::refs::starts_with(x, prefix@) && exists|k: int| 0 <= k < i + 1 && (#[trigger] ids@[k])@ == x) by {
                    if crate::refs::starts_with(x, prefix@) && exists|k: int| 0 <= k < i + 1 && (#[trigger] ids@[k])@ == x {
                        let k = choose|k: int| 0 <= k < i + 1 && (#[trigger] ids@[k])@ == x;
                        if k == i {
                            assert(crate::refs::starts_with(ids@[i as int]@, prefix@));
                        }
                    }
                }
            }
        }
        i += 1;
    }
    let mut out: Vec<Vec<u8>> = Vec::new();
    let mut j: usize = 0;
    while j < keyed.len()
        invariant
            j <= keyed@.len(),
            out@.len() == j,
            forall|k: int| 0 <= k < j ==> (#[trigger] out@[k])@ == keyed@[k].0@,
        decreases keyed@.len() - j,
    {
        out.push(copy_bytes(&keyed[j].0));
        j += 1;
    }
    proof {
        let l = crate::status::paths_view(out@);
        assert(strictly_sorted(l)) by {
            assert forall|a: int, b: int| 0 <= a < b < l.len() implies crate::codec::bytes_lt(l[a], l[b]) by {
                assert(l[a] == keyed@[a].0@ && l[b] == keyed@[b].0@);
            }
        }
        assert forall|x: Seq<u8>|
            l.contains(x) <==> (crate::refs::starts_with(x, prefix@) && exists|i: int| 0 <= i < ids@.len() && (#[trigger] ids@[i])@ == x) by {
            if l.contains(x) {
                let k = choose|k: int| 0 <= k < l.len() && l[k] == x;
                assert(maps_to(keyed@, x, keyed@[k].1));
            }
            if crate::refs::starts_with(x, prefix@) && exists|i: int| 0 <= i < ids@.len() && (#[trigger] ids@[i])@ == x {
                assert(maps_to(keyed@, x, true));
                let k = choose|k: int| 0 <= k < keyed@.len() && (#[trigger] keyed@[k]).0@ == x && keyed@[k].1 == true;
                assert(l[k] == x);
            }
        }
        let m = matches_of(ids@, prefix@);
        assert(strictly_sorted(m) && forall|x: Seq<u8>|
            m.contains(x) <==> (crate::refs::starts_with(x, prefix@) && exists|i: int| 0 <= i < ids@.len() && (#[trigger] ids@[i])@ == x));
        lemma_sorted_same(l, m);
    }
    out
}

} // verus!

verus! {

/// What the store says of one object: its id (hex), kind, and parent id when it is a commit
/// that has one.
#[derive(Debug)]
pub struct ObjectInfo {
    pub oid: Vec<u8>,
    pub kind: ObjectKind,
    pub parent: Option<Vec<u8>>,
}

/// The outcome of resolving a revision.
pub enum Outcome {
    Found(Seq<u8>),
    NotFound,
    Ambiguous(Seq<u8>, Seq<Seq<u8>>),
    NotCommit(Seq<u8>, ObjectKind),
    Unloaded(Seq<u8>),
}

/// Why a revision did not resolve to a commit.
#[derive(Debug)]
pub enum RevError {
    /// No reference or object matches.
    NotFound,
    /// A short id matches several objects, given in increasing order.
    Ambiguous { name: Vec<u8>, candidates: Vec<Vec<u8>> },
    /// The object is not a commit.
    NotCommit { oid: Vec<u8>, kind: ObjectKind },
    /// The object is not in the table yet: the caller loads it and resolves again.
    Unloaded { oid: Vec<u8> },
}

/// The outcome a result stands for.
pub open spec fn outcome_of(r: Result<Vec<u8>, RevError>) -> Outcome {
    match r {
        Ok(o) => Outcome::Found(o@),
        Err(RevError::NotFound) => Outcome::NotFound,
        Err(RevError::Ambiguous { name, candidates }) => Outcome::Ambiguous(name@, crate::status::paths_view(candidates@)),
        Err(RevError::NotCommit { oid, kind }) => Outcome::NotCommit(oid@, kind),
        Err(RevError::Unloaded { oid }) => Outcome::Unloaded(oid@),
    }
}

/// A position of object `o` in the table.
pub open spec fn info_index(table: Seq<ObjectInfo>, o: Seq<u8>) -> int {
    choose|i: int| 0 <= i < table.len() && (#[trigger] table[i]).oid@ == o
}

/// What the table says of object `o`, if it holds it.
pub open spec fn info_at(table: Seq<ObjectInfo>, o: Seq<u8>) -> Option<ObjectInfo> {
    if exists|i: int| 0 <= i < table.len() && (#[trigger] table[i]).oid@ == o {
        Some(table[info_index(table, o)])
    } else {
        None
    }
}

/// Each object once in the table.
pub open spec fn table_wf(table: Seq<ObjectInfo>) -> bool {
    forall|i: int, j: int| 0 <= i < table.len() && 0 <= j < table.len() && i != j ==> table[i].oid@ != table[j].oid@
}

/// What a short id matches: one object, several, or none.
pub open spec fn prefix_outcome(ids: Seq<Vec<u8>>, name: Seq<u8>) -> Outcome {
    let m = matches_of(ids, name);
    if m.len() == 1 {
        Outcome::Found(m[0])
    } else if m.len() > 1 {
        Outcome::Ambiguous(name, m)
    } else {
        Outcome::NotFound
    }
}

/// A name resolves through the reference it names, else as a short object id.
pub open spec fn read_ref_spec(files: Seq<(Vec<u8>, Vec<u8>)>, ids: Seq<Vec<u8>>, name: Seq<u8>) -> Outcome {
    match ref_path_spec(files, name) {
        Some(p) => match resolve_spec(files, p, MAX_SYMREF_DEPTH as nat) {
            Some(o) => Outcome::Found(o),
            None => prefix_outcome(ids, name),
        },
        None => prefix_outcome(ids, name),
    }
}

/// The parent of commit `o`.
pub open spec fn parent_step(table: Seq<ObjectInfo>, o: Seq<u8>) -> Outcome {
    match info_at(table, o) {
        None => Outcome::Unloaded(o),
        Some(i) => if i.kind != ObjectKind::Commit {
            Outcome::NotCommit(o, i.kind)
        } else {
            match i.parent {
                Some(p) => Outcome::Found(p@),
                None => Outcome::NotFound,
            }
        },
    }
}

/// Going back `n` parents from `o`: the `n`-th parent, or why it does not exist.
pub open spec fn ancestor_spec(table: Seq<ObjectInfo>, o: Seq<u8>, n: nat) -> Outcome
    decreases n,
{
    if n == 0 {
        Outcome::Found(o)
    } else {
        match parent_step(table, o) {
            Outcome::Found(p) => ancestor_spec(table, p, (n - 1) as nat),
            other => other,
        }
    }
}

/// What a revision resolves to before the final check that it is a commit.
pub open spec fn query_spec(files: Seq<(Vec<u8>, Vec<u8>)>, ids: Seq<Vec<u8>>, table: Seq<ObjectInfo>, r: RevView) -> Outcome
    decreases r,
{
    match r {
        RevView::Ref(name) => read_ref_spec(files, ids, name),
        RevView::Parent(inner) => match query_spec(files, ids, table, *inner) {
            Outcome::Found(o) => parent_step(table, o),
            other => other,
        },
        RevView::Ancestor(inner, n) => match query_spec(files, ids, table, *inner) {
            Outcome::Found(o) => if n >= 0 {
                ancestor_spec(table, o, n as nat)
            } else {
                Outcome::Found(o)
            },
            other => other,
        },
    }
}

/// What a revision resolves to: a commit's id, or why not.
pub open spec fn resolve_outcome(files: Seq<(Vec<u8>, Vec<u8>)>, ids: Seq<Vec<u8>>, table: Seq<ObjectInfo>, r: RevView) -> Outcome {
    match query_spec(files, ids, table, r) {
        Outcome::Found(o) => match info_at(table, o) {
            None => Outcome::Unloaded(o),
            Some(i) => if i.kind == ObjectKind::Commit {
                Outcome::Found(o)
            } else {
                Outcome::NotCommit(o, i.kind)
            },
        },
        other => other,
    }
}

/// The table's record of object `o`.
pub fn lookup_info<'a>(table: &'a Vec<ObjectInfo>, o: &[u8]) -> (r: Option<&'a ObjectInfo>)
    requires
        table_wf(table@),
    ensures
        match r {
            Some(i) => info_at(table@, o@) == Some(*i),
            None => info_at(table@, o@) is None,
        },
{
    let mut k: usize = 0;
    while k < table.len()
        invariant
            table_wf(table@),
            k <= table@.len(),
            forall|j: int| 0 <= j < k ==> (#[trigger] table@[j]).oid@ != o@,
        decreases table@.len() - k,
    {
        if compare_bytes(&table[k].oid, o) == 0 {
            proof {
                let c = info_index(table@, o@);
                if c != k {
                    assert(table@[c].oid@ != table@[k as int].oid@);
                }
            }
            return Some(&table[k]);
        }
        k += 1;
    }
    None
}

fn outcome_prefix(ids: &Vec<Vec<u8>>, name: &[u8]) -> (r: Result<Vec<u8>, RevError>)
    ensures
        outcome_of(r) == prefix_outcome(ids@, name@),
{
    let m = prefix_match(ids, name);
    if m.len() == 1 {
        Ok(copy_bytes(&m[0]))
    } else if m.len() > 1 {
        Err(RevError::Ambiguous { name: copy_bytes(name), candidates: m })
    } else {
        Err(RevError::NotFound)
    }
}

fn copy_outcome(r: &Result<Vec<u8>, RevError>) -> (c: Result<Vec<u8>, RevError>)
    ensures
        outcome_of(c) == outcome_of(*r),
{
    match r {
        Ok(o) => Ok(copy_bytes(o)),
        Err(RevError::NotFound) => Err(RevError::NotFound),
        Err(RevError::Ambiguous { name, candidates }) => {
            let mut cs: Vec<Vec<u8>> = Vec::new();
            let mut i: usize = 0;
            while i < candidates.len()
                invariant
                    i <= candidates@.len(),
                    cs@.len() == i,
                    forall|k: int| 0 <= k < i ==> (#[trigger] cs@[k])@ == candidates@[k]@,
                decreases candidates@.len() - i,
            {
                cs.push(copy_bytes(&candidates[i]));
                i += 1;
            }
            assert(crate::status::paths_view(cs@) =~= crate::status::paths_view(candidates@));
            Err(RevError::Ambiguous { name: copy_bytes(name), candidates: cs })
        },
        Err(RevError::NotCommit { oid, kind }) => Err(RevError::NotCommit { oid: copy_bytes(oid), kind: *kind }),
        Err(RevError::Unloaded { oid }) => Err(RevError::Unloaded { oid: copy_bytes(oid) }),
    }
}

/// Resolves a name through the references, else as a short object id.
pub fn read_ref(refs: &Refs, ids: &Vec<Vec<u8>>, name: &[u8]) -> (r: Result<Vec<u8>, RevError>)
    requires
        refs.wf(),
    ensures
        outcome_of(r) == read_ref_spec(refs.files@, ids@, name@),
{
    match refs.path_for_name(name) {
        Some(p) => match refs.read_symref(&p) {
            Some(o) => Ok(o),
            None => outcome_prefix(ids, name),
        },
        None => outcome_prefix(ids, name),
    }
}

/// The parent of commit `o`.
pub fn commit_parent(table: &Vec<ObjectInfo>, o: &[u8]) -> (r: Result<Vec<u8>, RevError>)
    requires
        table_wf(table@),
    ensures
        outcome_of(r) == parent_step(table@, o@),
{
    match lookup_info(table, o) {
        None => Err(RevError::Unloaded { oid: copy_bytes(o) }),
        Some(i) => {
            if i.kind != ObjectKind::Commit {
                Err(RevError::NotCommit { oid: copy_bytes(o), kind: i.kind })
            } else {
                match &i.parent {
                    Some(p) => Ok(copy_bytes(p)),
                    None => Err(RevError::NotFound),
                }
            }
        },
    }
}

/// Resolves a parsed revision, before the final check that it names a commit.
pub fn resolve_query(refs: &Refs, ids: &Vec<Vec<u8>>, table: &Vec<ObjectInfo>, query: &Rev) -> (r: Result<Vec<u8>, RevError>)
    requires
        refs.wf(),
        table_wf(table@),
    ensures
        outcome_of(r) == query_spec(refs.files@, ids@, table@, rev_view(*query)),
    decreases query,
{
    match query {
        Rev::Ref { name } => read_ref(refs, ids, name),
        Rev::Parent { rev } => {
            let inner = resolve_query(refs, ids, table, rev);
            match inner {
                Ok(o) => commit_parent(table, &o),
                Err(e) => Err(e),
            }
        },
        Rev::Ancestor { rev, n } => {
            let inner = resolve_query(refs, ids, table, rev);
            match inner {
                Ok(o) => {
                    if *n < 0 {
                        return Ok(o);
                    }
                    let ghost ov = o@;
                    assert(query_spec(refs.files@, ids@, table@, rev_view(*query)) == ancestor_spec(table@, ov, *n as nat));
                    let mut cur = o;
                    let mut k: i32 = 0;
                    while k < *n
                        invariant
                            table_wf(table@),
                            0 <= k <= *n,
                            query_spec(refs.files@, ids@, table@, rev_view(*query)) == ancestor_spec(table@, ov, *n as nat),
                            ancestor_spec(table@, cur@, (*n - k) as nat) == ancestor_spec(table@, ov, *n as nat),
                        decreases *n - k,
                    {
                        match commit_parent(table, &cur) {
                            Ok(p) => {
                                cur = p;
                            },
                            Err(e) => {
                                return Err(e);
                            },
                        }
                        k += 1;
                    }
                    Ok(cur)
                },
                Err(e) => Err(e),
            }
        },
    }
}

} // verus!

verus! {

/// An error with hint lines to show under it.
#[derive(Debug)]
pub struct HintedError {
    pub message: Vec<u8>,
    pub hint: Vec<Vec<u8>>,
}

/// A revision expression and its parse.
#[derive(Debug)]
pub struct Revision {
    pub query: Rev,
    pub expr: Vec<u8>,
}

impl Revision {
    /// The revision that `expr` denotes; `None` when it is not a revision expression.
    pub fn new(expr: &[u8]) -> (r: Option<Revision>)
        ensures
            match r {
                Some(x) => parse_spec(expr@) == Some(rev_view(x.query)) && x.expr@ == expr@,
                None => parse_spec(expr@) is None,
            },
    {
        match parse(expr) {
            Some(q) => Some(Revision { query: q, expr: copy_bytes(expr) }),
            None => None,
        }
    }

    /// Parses a revision expression.
    pub fn parse(revision: &[u8]) -> (r: Option<Rev>)
        ensures
            match r {
                Some(x) => parse_spec(revision@) == Some(rev_view(x)),
                None => parse_spec(revision@) is None,
            },
    {
        parse(revision)
    }

    /// Whether `name` is allowed as a reference name.
    pub fn is_valid_ref(name: &[u8]) -> (r: bool)
        ensures
            r == !invalid_name(name@),
    {
        is_valid_ref(name)
    }

    /// Resolves a parsed revision, before the final check that it names a commit.
    pub fn resolve_query(refs: &Refs, ids: &Vec<Vec<u8>>, table: &Vec<ObjectInfo>, query: &Rev) -> (r: Result<Vec<u8>, RevError>)
        requires
            refs.wf(),
            table_wf(table@),
        ensures
            outcome_of(r) == query_spec(refs.files@, ids@, table@, rev_view(*query)),
    {
        resolve_query(refs, ids, table, query)
    }

    /// Resolves this revision to a commit id, through `refs`, the object ids `ids` of the
    /// store (for short ids) and the objects loaded in `table`.
    pub fn resolve(&self, refs: &Refs, ids: &Vec<Vec<u8>>, table: &Vec<ObjectInfo>) -> (r: Result<Vec<u8>, RevError>)
        requires
            refs.wf(),
            table_wf(table@),
        ensures
            outcome_of(r) == resolve_outcome(refs.files@, ids@, table@, rev_view(self.query)),
    {
        match resolve_query(refs, ids, table, &self.query) {
            Ok(o) => match lookup_info(table, &o) {
                None => Err(RevError::Unloaded { oid: o }),
                Some(i) => {
                    if i.kind == ObjectKind::Commit {
                        Ok(o)
                    } else {
                        Err(RevError::NotCommit { oid: o, kind: i.kind })
                    }
                },
            },
            Err(e) => Err(e),
        }
    }
}

/// `@` stands for `HEAD`: both parse to the reference `HEAD`, so they resolve alike.
pub proof fn lemma_at_is_head()
    ensures
        parse_spec(seq![64u8]) == parse_spec(crate::refs::head_name()),
        parse_spec(seq![64u8]) == Some(RevView::Ref(crate::refs::head_name())),
{
    let a = seq![64u8];
    let h = crate::refs::head_name();
    assert forall|t: int| !tilde_at(a, t) by {}
    assert forall|t: int| !tilde_at(h, t) by {
        if tilde_at(h, t) {
            assert(h[t] == 126);
        }
    }
    assert(!invalid_name(a)) by {
        assert forall|i: int| !crate::refs::has_at(a, i, seq![47u8, 46u8]) by {}
        assert forall|i: int| !crate::refs::has_at(a, i, seq![46u8, 46u8]) by {}
        assert forall|i: int| !crate::refs::has_at(a, i, seq![64u8, 123u8]) by {}
        assert forall|i: int| !(0 <= i < a.len() && crate::refs::bad_name_byte(#[trigger] a[i])) by {}
    }
    assert(!invalid_name(h)) by {
        assert forall|i: int| !crate::refs::has_at(h, i, seq![47u8, 46u8]) by {
            if crate::refs::has_at(h, i, seq![47u8, 46u8]) {
                assert(h.subrange(i, i + 2)[0] == h[i]);
            }
        }
        assert forall|i: int| !crate::refs::has_at(h, i, seq![46u8, 46u8]) by {
            if crate::refs::has_at(h, i, seq![46u8, 46u8]) {
                assert(h.subrange(i, i + 2)[0] == h[i]);
            }
        }
        assert forall|i: int| !crate::refs::has_at(h, i, seq![64u8, 123u8]) by {
            if crate::refs::has_at(h, i, seq![64u8, 123u8]) {
                assert(h.subrange(i, i + 2)[0] == h[i]);
            }
        }
        assert forall|i: int| !(0 <= i < h.len() && crate::refs::bad_name_byte(#[trigger] h[i])) by {}
    }
    assert(h != a);
}

/// `x^` parses to the parent of what `x` parses to.
pub proof fn lemma_parse_parent(s: Seq<u8>)
    requires
        s.len() >= 1,
    ensures
        parse_spec(s.push(94u8)) == match parse_spec(s) {
            Some(r) => Some(RevView::Parent(Box::new(r))),
            None => None,
        },
{
    assert(s.push(94u8).drop_last() =~= s);
}

/// Resolving `x^` resolves `x` and takes that commit's parent.
pub proof fn lemma_resolve_parent(
    files: Seq<(Vec<u8>, Vec<u8>)>,
    ids: Seq<Vec<u8>>,
    table: Seq<ObjectInfo>,
    x: RevView,
)
    ensures
        query_spec(files, ids, table, RevView::Parent(Box::new(x))) == match query_spec(files, ids, table, x) {
            Outcome::Found(o) => parent_step(table, o),
            other => other,
        },
{
}

/// Resolving `x~n` resolves `x` and goes back `n` parents.
pub proof fn lemma_resolve_ancestor(
    files: Seq<(Vec<u8>, Vec<u8>)>,
    ids: Seq<Vec<u8>>,
    table: Seq<ObjectInfo>,
    x: RevView,
    n: nat,
)
    ensures
        query_spec(files, ids, table, RevView::Ancestor(Box::new(x), n as int)) == match query_spec(files, ids, table, x) {
            Outcome::Found(o) => ancestor_spec(table, o, n),
            other => other,
        },
{
}

/// Going back one more parent is taking the parent first: `parent^(n+1)(o)` is
/// `parent^n(parent(o))`, and fails where `parent(o)` fails.
pub proof fn lemma_ancestor_step(table: Seq<ObjectInfo>, o: Seq<u8>, n: nat)
    ensures
        ancestor_spec(table, o, n + 1) == match parent_step(table, o) {
            Outcome::Found(p) => ancestor_spec(table, p, n),
            other => other,
        },
        ancestor_spec(table, o, 1) == parent_step(table, o),
{
    match parent_step(table, o) {
        Outcome::Found(p) => {
            assert(ancestor_spec(table, p, 0) == Outcome::Found(p));
        },
        _ => {},
    }
}

/// Whether `x` is an id of the store, listed in `ids`.
pub open spec fn listed(ids: Seq<Vec<u8>>, x: Seq<u8>) -> bool {
    exists|i: int| 0 <= i < ids.len() && (#[trigger] ids[i])@ == x
}

/// An ambiguous short id reports the matching ids in increasing order, so the failure is the
/// same whatever order (and repetition) the store lists its ids in.
pub proof fn lemma_ambiguity_deterministic(ids1: Seq<Vec<u8>>, ids2: Seq<Vec<u8>>, name: Seq<u8>)
    requires
        forall|x: Seq<u8>| #[trigger] listed(ids1, x) <==> listed(ids2, x),
        strictly_sorted(matches_of(ids1, name)),
        forall|x: Seq<u8>| matches_of(ids1, name).contains(x) <==> (crate::refs::starts_with(x, name) && listed(ids1, x)),
        strictly_sorted(matches_of(ids2, name)),
        forall|x: Seq<u8>| matches_of(ids2, name).contains(x) <==> (crate::refs::starts_with(x, name) && listed(ids2, x)),
    ensures
        prefix_outcome(ids1, name) == prefix_outcome(ids2, name),
{
    let m1 = matches_of(ids1, name);
    let m2 = matches_of(ids2, name);
    assert forall|x: Seq<u8>| m1.contains(x) <==> m2.contains(x) by {
        assert(listed(ids1, x) <==> listed(ids2, x));
    }
    lemma_sorted_same(m1, m2);
}

} // verus!


verus! {

/// `short SHA1 `.
pub open spec fn short_sha1_text() -> Seq<u8> {
    seq![115u8, 104u8, 111u8, 114u8, 116u8, 32u8, 83u8, 72u8, 65u8, 49u8, 32u8]
}

/// ` is ambiguous`.
pub open spec fn is_ambiguous_text() -> Seq<u8> {
    seq![32u8, 105u8, 115u8, 32u8, 97u8, 109u8, 98u8, 105u8, 103u8, 117u8, 111u8, 117u8, 115u8]
}

/// `The candidates are:`.
pub open spec fn candidates_text() -> Seq<u8> {
    seq![84u8, 104u8, 101u8, 32u8, 99u8, 97u8, 110u8, 100u8, 105u8, 100u8, 97u8, 116u8, 101u8, 115u8, 32u8, 97u8, 114u8, 101u8, 58u8]
}

/// `object `.
pub open spec fn object_text() -> Seq<u8> {
    seq![111u8, 98u8, 106u8, 101u8, 99u8, 116u8, 32u8]
}

/// ` is a `.
pub open spec fn is_a_text() -> Seq<u8> {
    seq![32u8, 105u8, 115u8, 32u8, 97u8, 32u8]
}

/// `, not a commit`.
pub open spec fn not_a_commit_text() -> Seq<u8> {
    seq![44u8, 32u8, 110u8, 111u8, 116u8, 32u8, 97u8, 32u8, 99u8, 111u8, 109u8, 109u8, 105u8, 116u8]
}

fn push_literal(v: &mut Vec<u8>, lit: Vec<u8>)
    ensures
        final(v)@ == old(v)@ + lit@,
{
    crate::codec::push_all(v, &lit);
}

impl HintedError {
    /// The error for a short id that several objects match, with one hint line per candidate
    /// after the heading line.
    pub fn ambiguous(name: &[u8], candidate_lines: Vec<Vec<u8>>) -> (r: HintedError)
        ensures
            r.message@ == short_sha1_text() + name@ + is_ambiguous_text(),
            r.hint@.len() == candidate_lines@.len() + 1,
            r.hint@[0]@ == candidates_text(),
            forall|i: int| 0 <= i < candidate_lines@.len() ==> r.hint@[i + 1] == candidate_lines@[i],
    {
        let mut message: Vec<u8> = Vec::new();
        let a = vec![115u8, 104u8, 111u8, 114u8, 116u8, 32u8, 83u8, 72u8, 65u8, 49u8, 32u8];
        assert(a@ =~= short_sha1_text());
        push_literal(&mut message, a);
        crate::codec::push_all(&mut message, name);
        let b = vec![32u8, 105u8, 115u8, 32u8, 97u8, 109u8, 98u8, 105u8, 103u8, 117u8, 111u8, 117u8, 115u8];
        assert(b@ =~= is_ambiguous_text());
        push_literal(&mut message, b);
        let head = vec![84u8, 104u8, 101u8, 32u8, 99u8, 97u8, 110u8, 100u8, 105u8, 100u8, 97u8, 116u8, 101u8, 115u8, 32u8, 97u8, 114u8, 101u8, 58u8];
        assert(head@ =~= candidates_text());
        let mut hint: Vec<Vec<u8>> = vec![head];
        let ghost lines = candidate_lines@;
        let mut rest = candidate_lines;
        hint.append(&mut rest);
        assert forall|i: int| 0 <= i < lines.len() implies hint@[i + 1] == lines[i] by {}
        HintedError { message, hint }
    }

    /// The error for a revision that names an object of another kind than a commit.
    pub fn not_commit(oid_hex: &[u8], kind: ObjectKind) -> (r: HintedError)
        ensures
            r.message@ == object_text() + oid_hex@ + is_a_text() + crate::object::kind_name(kind) + not_a_commit_text(),
            r.hint@.len() == 0,
    {
        let mut message: Vec<u8> = Vec::new();
        let a = vec![111u8, 98u8, 106u8, 101u8, 99u8, 116u8, 32u8];
        assert(a@ =~= object_text());
        push_literal(&mut message, a);
        crate::codec::push_all(&mut message, oid_hex);
        let b = vec![32u8, 105u8, 115u8, 32u8, 97u8, 32u8];
        assert(b@ =~= is_a_text());
        push_literal(&mut message, b);
        let k = kind.name();
        crate::codec::push_all(&mut message, &k);
        let c = vec![44u8, 32u8, 110u8, 111u8, 116u8, 32u8, 97u8, 32u8, 99u8, 111u8, 109u8, 109u8, 105u8, 116u8];
        assert(c@ =~= not_a_commit_text());
        push_literal(&mut message, c);
        HintedError { message, hint: Vec::new() }
    }
}

/// The hint line for one candidate of an ambiguous short id: ` <short id> <type>`, and for a
/// commit whose author line reads, ` <date> - <title>` after it.
pub fn candidate_hint(oid_hex: &[u8], kind: ObjectKind, commit: Option<&crate::commit::Commit>) -> (r: Vec<u8>)
    requires
        oid_hex@.len() >= 6,
    ensures
        r@.len() >= 8 + crate::object::kind_name(kind).len(),
        r@.subrange(0, 8 + crate::object::kind_name(kind).len() as int) == seq![32u8] + oid_hex@.subrange(0, 6) + seq![32u8]
            + crate::object::kind_name(kind),
        commit is None ==> r@ == seq![32u8] + oid_hex@.subrange(0, 6) + seq![32u8] + crate::object::kind_name(kind),
        commit is Some ==> r@ == seq![32u8] + oid_hex@.subrange(0, 6) + seq![32u8] + crate::object::kind_name(kind) + match crate::commit::author_time(
            commit->0.author@,
        ) {
            Some(t) => match crate::commit::short_date_of(t) {
                Some(d) => seq![32u8] + d + seq![32u8, 45u8, 32u8] + crate::commit::title_of(commit->0.message@),
                None => Seq::<u8>::empty(),
            },
            None => Seq::<u8>::empty(),
        },
{
    let mut r: Vec<u8> = Vec::new();
    r.push(32);
    let short = crate::object::short_oid(oid_hex);
    crate::codec::push_all(&mut r, &short);
    r.push(32);
    let k = kind.name();
    crate::codec::push_all(&mut r, &k);
    let ghost head = r@;
    assert(head =~= seq![32u8] + oid_hex@.subrange(0, 6) + seq![32u8] + crate::object::kind_name(kind));
    match commit {
        Some(c) => {
            match crate::commit::Author::parse(&c.author) {
                Some(a) => {
                    match a.short_date() {
                        Some(date) => {
                            r.push(32);
                            crate::codec::push_all(&mut r, &date);
                            r.push(32);
                            r.push(45);
                            r.push(32);
                            let title = c.title_line();
                            crate::codec::push_all(&mut r, &title);
                        },
                        None => {},
                    }
                },
                None => {},
            }
        },
        None => {},
    }
    assert(r@.subrange(0, head.len() as int) =~= head);
    proof {
        if commit is Some {
            let c = commit->0;
            match crate::commit::author_time(c.author@) {
                Some(t) => match crate::commit::short_date_of(t) {
                    Some(d) => {
                        assert(r@ =~= head + (seq![32u8] + d + seq![32u8, 45u8, 32u8] + crate::commit::title_of(c.message@)));
                    },
                    None => {
                        assert(r@ =~= head + Seq::<u8>::empty());
                    },
                },
                None => {
                    assert(r@ =~= head + Seq::<u8>::empty());
                },
            }
        }
    }
    r
}

} // verus!
