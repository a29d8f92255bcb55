use vstd::prelude::*;

use crate::codec::{bytes_lt, compare_bytes, copy_bytes, lemma_lt_asymmetric, lemma_lt_transitive, push_all, slice_to_vec};
use crate::index::{EXECUTABLE_MODE, REGULAR_MODE};

verus! {

/// Mode of a subtree (`0o40000`).
pub const TREE_MODE: u32 = 16384;

/// Octal digits of a natural number, most significant first, with no leading zero.
pub open spec fn octal(n: nat) -> Seq<u8>
    decreases n,
{
    if n < 8 {
        seq![(48 + n) as u8]
    } else {
        octal(n / 8).push((48 + n % 8) as u8)
    }
}

/// The value of a string of octal digits.
pub open spec fn octal_value(s: Seq<u8>) -> nat
    decreases s.len(),
{
    if s.len() == 0 {
        0
    } else {
        octal_value(s.drop_last()) * 8 + (s.last() - 48) as nat
    }
}

pub proof fn lemma_octal(n: nat)
    ensures
        octal(n).len() >= 1,
        forall|i: int| 0 <= i < octal(n).len() ==> 48 <= #[trigger] octal(n)[i] < 56,
        octal_value(octal(n)) == n,
    decreases n,
{
    let d = octal(n);
    if n >= 8 {
        lemma_octal(n / 8);
        assert(d.drop_last() =~= octal(n / 8));
        assert((n / 8) * 8 + n % 8 == n) by (nonlinear_arith);
        assert(octal_value(d) == octal_value(d.drop_last()) * 8 + (d.last() - 48) as nat);
        assert forall|i: int| 0 <= i < d.len() implies 48 <= #[trigger] d[i] < 56 by {
            if i < d.len() - 1 {
                assert(d[i] == octal(n / 8)[i]);
            }
        }
    } else {
        assert(d.drop_last() =~= Seq::<u8>::empty());
        assert(octal_value(d) == octal_value(d.drop_last()) * 8 + (d.last() - 48) as nat);
    }
}

/// Writes `n` in octal.
pub fn push_octal(v: &mut Vec<u8>, n: u32)
    ensures
        final(v)@ == old(v)@ + octal(n as nat),
    decreases n,
{
    if n < 8 {
        v.push(48 + n as u8);
        assert(final(v)@ =~= old(v)@ + octal(n as nat));
    } else {
        push_octal(v, n / 8);
        v.push(48 + (n % 8) as u8);
        assert(final(v)@ =~= old(v)@ + octal(n as nat));
    }
}

/// The mode a tree records for an entry of mode `m`: subtrees keep theirs, files are
/// executable or regular by the owner's execute bit.
pub open spec fn tree_mode(m: u32) -> u32 {
    if m == TREE_MODE {
        TREE_MODE
    } else if (m / 64) % 2 == 1 {
        EXECUTABLE_MODE
    } else {
        REGULAR_MODE
    }
}

/// One named item of a tree: its name, object id (20 raw bytes) and mode.
#[derive(Debug)]
pub struct Entry {
    pub name: Vec<u8>,
    pub oid: Vec<u8>,
    pub mode: u32,
}

/// A tree item as a mathematical value.
pub struct EntryView {
    pub name: Seq<u8>,
    pub oid: Seq<u8>,
    pub mode: u32,
}

impl View for Entry {
    type V = EntryView;

    open spec fn view(&self) -> EntryView {
        EntryView { name: self.name@, oid: self.oid@, mode: self.mode }
    }
}

/// The record of one item in a tree body: `<octal mode> <name>\0<20-byte id>`.
pub open spec fn record_bytes(e: EntryView) -> Seq<u8> {
    octal(tree_mode(e.mode) as nat) + seq![32u8] + e.name + seq![0u8] + e.oid
}

/// A tree body: the records of its items, one after another.
pub open spec fn tree_bytes(es: Seq<EntryView>) -> Seq<u8>
    decreases es.len(),
{
    if es.len() == 0 {
        Seq::<u8>::empty()
    } else {
        tree_bytes(es.drop_last()) + record_bytes(es.last())
    }
}

/// Items in strictly increasing name order.
pub open spec fn sorted_names(es: Seq<EntryView>) -> bool {
    forall|i: int, j: int| 0 <= i < j < es.len() ==> bytes_lt(es[i].name, es[j].name)
}

/// An item that its record gives back exactly: a recorded mode, a name without NUL, a 20-byte id.
pub open spec fn record_exact(e: EntryView) -> bool {
    &&& tree_mode(e.mode) == e.mode
    &&& e.oid.len() == 20
    &&& forall|i: int| 0 <= i < e.name.len() ==> #[trigger] e.name[i] != 0
}

/// Items that a tree body can hold and give back exactly.
pub open spec fn tree_storable(es: Seq<EntryView>) -> bool {
    &&& sorted_names(es)
    &&& forall|i: int| 0 <= i < es.len() ==> record_exact(#[trigger] es[i])
}

impl Entry {
    /// An item named `name` holding object `oid` with mode `mode`.
    pub fn new(name: &[u8], oid: &[u8], mode: u32) -> (r: Entry)
        ensures
            r@ == (EntryView { name: name@, oid: oid@, mode }),
    {
        Entry { name: copy_bytes(name), oid: copy_bytes(oid), mode }
    }

    /// Whether the owner may execute this item.
    pub fn is_executable(&self) -> (r: bool)
        ensures
            r == ((self.mode / 64) % 2 == 1),
    {
        (self.mode / 64) % 2 == 1
    }

    /// The mode a tree records for this item.
    pub fn mode(&self) -> (r: u32)
        ensures
            r == tree_mode(self.mode),
    {
        if self.mode == TREE_MODE {
            TREE_MODE
        } else if self.is_executable() {
            EXECUTABLE_MODE
        } else {
            REGULAR_MODE
        }
    }

    /// A copy of this item.
    pub fn duplicate(&self) -> (r: Entry)
        ensures
            r@ == self@,
    {
        Entry { name: copy_bytes(&self.name), oid: copy_bytes(&self.oid), mode: self.mode }
    }

    /// The record of this item in a tree body.
    pub fn record(&self) -> (r: Vec<u8>)
        ensures
            r@ == record_bytes(self@),
    {
        let mut r: Vec<u8> = Vec::new();
        push_octal(&mut r, self.mode());
        r.push(32);
        push_all(&mut r, &self.name);
        r.push(0);
        push_all(&mut r, &self.oid);
        assert(r@ =~= record_bytes(self@));
        r
    }
}

pub proof fn lemma_tree_bytes_push(es: Seq<EntryView>, e: EntryView)
    ensures
        tree_bytes(es.push(e)) == tree_bytes(es) + record_bytes(e),
{
    assert(es.push(e).drop_last() =~= es);
}

/// The body of a tree whose items are `entries`, in order.
pub fn tree_body(entries: &Vec<Entry>) -> (r: Vec<u8>)
    ensures
        r@ == tree_bytes(entries@.map_values(|e: Entry| e@)),
{
    let ghost v = entries@.map_values(|e: Entry| e@);
    let mut r: Vec<u8> = Vec::new();
    let mut i: usize = 0;
    while i < entries.len()
        invariant
            i <= entries@.len(),
            v == entries@.map_values(|e: Entry| e@),
            r@ == tree_bytes(v.subrange(0, i as int)),
        decreases entries@.len() - i,
    {
        let rec = entries[i].record();
        push_all(&mut r, &rec);
        proof {
            assert(v.subrange(0, i + 1) =~= v.subrange(0, i as int).push(v[i as int]));
            lemma_tree_bytes_push(v.subrange(0, i as int), v[i as int]);
        }
        i += 1;
    }
    assert(v.subrange(0, i as int) =~= v);
    r
}

} // verus!

verus! {

/// Facts about the bytes of an exact record that stands at `pos` in `data`.
pub proof fn lemma_record_at(data: Seq<u8>, pos: int, e: EntryView)
    requires
        record_exact(e),
        0 <= pos,
        pos + record_bytes(e).len() <= data.len(),
        data.subrange(pos, pos + record_bytes(e).len()) == record_bytes(e),
    ensures
        ({
            let m = octal(e.mode as nat).len() as int;
            let n = e.name.len() as int;
            &&& record_bytes(e).len() == m + n + 22
            &&& forall|i: int| 0 <= i < m ==> data[pos + i] == #[trigger] octal(e.mode as nat)[i]
            &&& data[pos + m] == 32
            &&& forall|i: int| 0 <= i < n ==> data[pos + m + 1 + i] == #[trigger] e.name[i]
            &&& data[pos + m + 1 + n] == 0
            &&& data.subrange(pos + m + 2 + n, pos + m + n + 22) == e.oid
        }),
{
    let r = record_bytes(e);
    let o = octal(e.mode as nat);
    let m = o.len() as int;
    let n = e.name.len() as int;
    assert(r == o + seq![32u8] + e.name + seq![0u8] + e.oid);
    assert forall|i: int| 0 <= i < r.len() implies data[pos + i] == r[i] by {
        assert(data.subrange(pos, pos + r.len())[i] == r[i]);
    }
    assert forall|i: int| 0 <= i < m implies data[pos + i] == #[trigger] o[i] by {
        assert(r[i] == o[i]);
    }
    assert(r[m] == 32);
    assert forall|i: int| 0 <= i < n implies data[pos + m + 1 + i] == #[trigger] e.name[i] by {
        assert(r[m + 1 + i] == e.name[i]);
    }
    assert(r[m + 1 + n] == 0);
    assert forall|i: int| 0 <= i < 20 implies data.subrange(pos + m + 2 + n, pos + m + n + 22)[i] == e.oid[i] by {
        assert(r[m + 2 + n + i] == e.oid[i]);
    }
    assert(data.subrange(pos + m + 2 + n, pos + m + n + 22) =~= e.oid);
}

/// Parses the record that starts at `pos`.
pub fn parse_record(data: &[u8], pos: usize) -> (r: Option<(Entry, usize)>)
    requires
        pos <= data@.len(),
    ensures
        match r {
            Some((e, end)) => {
                &&& pos < end <= data@.len()
                &&& record_exact(e@)
                &&& data@.subrange(pos as int, end as int) == record_bytes(e@)
            },
            None => forall|e: EntryView|
                record_exact(e) && pos + record_bytes(e).len() <= data@.len() ==> data@.subrange(
                    pos as int,
                    pos + record_bytes(e).len(),
                ) != record_bytes(e),
        },
{
    let mut sp: usize = pos;
    let mut v: u32 = 0;
    let mut ok = true;
    let ghost mut bad: int = 0;
    while sp < data.len() && data[sp] != 32
        invariant
            pos <= sp <= data@.len(),
            ok ==> forall|i: int| pos <= i < sp ==> 48 <= #[trigger] data@[i] < 56,
            ok ==> v == octal_value(data@.subrange(pos as int, sp as int)),
            !ok ==> pos <= bad < sp && (!(48 <= data@[bad] < 56) || octal_value(
                data@.subrange(pos as int, bad),
            ) >= 536870912),
            forall|i: int| pos <= i < sp ==> data@[i] != 32,
        decreases data@.len() - sp,
    {
        let c = data[sp];
        let ghost old_sp = sp as int;
        let ghost was_ok = ok;
        if ok {
            if c >= 48 && c < 56 && v < 536870912 {
                proof {
                    let s = data@.subrange(pos as int, sp + 1);
                    assert(s.drop_last() =~= data@.subrange(pos as int, sp as int));
                }
                v = v * 8 + (c - 48) as u32;
            } else {
                assert(!(48 <= data@[sp as int] < 56) || octal_value(
                    data@.subrange(pos as int, sp as int),
                ) >= 536870912);
                ok = false;
            }
        }
        sp += 1;
        proof {
            if !ok && was_ok {
                bad = old_sp;
            }
        }
    }
    let ghost fails = forall|e: EntryView|
        record_exact(e) && pos + record_bytes(e).len() <= data@.len() ==> data@.subrange(
            pos as int,
            pos + record_bytes(e).len(),
        ) != record_bytes(e);
    if sp == data.len() || !ok || sp == pos {
        proof {
            assert forall|e: EntryView|
                record_exact(e) && pos + record_bytes(e).len() <= data@.len() implies data@.subrange(
                pos as int,
                pos + record_bytes(e).len(),
            ) != record_bytes(e) by {
                if data@.subrange(pos as int, pos + record_bytes(e).len()) == record_bytes(e) {
                    lemma_record_at(data@, pos as int, e);
                    lemma_octal(e.mode as nat);
                    let m = octal(e.mode as nat).len() as int;
                    assert(data@[pos + m] == 32);
                    if sp < pos + m {
                        assert(data@[sp as int] == octal(e.mode as nat)[sp - pos]);
                    }
                    if pos + m < sp {
                        assert(data@[pos + m] != 32);
                    }
                    assert(sp == pos + m);
                    assert(data@.subrange(pos as int, sp as int) =~= octal(e.mode as nat));
                    lemma_octal_digits_fit(data@, pos as int, sp as int, e.mode);
                }
            }
        }
        return None;
    }
    let digits = slice_to_vec(data, pos, sp);
    let mut canon: Vec<u8> = Vec::new();
    push_octal(&mut canon, v);
    let mode_ok = if v == TREE_MODE {
        true
    } else {
        v == EXECUTABLE_MODE || v == REGULAR_MODE
    };
    if compare_bytes(&digits, &canon) != 0 || !mode_ok {
        proof {
            assert forall|e: EntryView|
                record_exact(e) && pos + record_bytes(e).len() <= data@.len() implies data@.subrange(
                pos as int,
                pos + record_bytes(e).len(),
            ) != record_bytes(e) by {
                if data@.subrange(pos as int, pos + record_bytes(e).len()) == record_bytes(e) {
                    lemma_record_at(data@, pos as int, e);
                    lemma_octal(e.mode as nat);
                    let m = octal(e.mode as nat).len() as int;
                    if sp < pos + m {
                        assert(data@[sp as int] == octal(e.mode as nat)[sp - pos]);
                    }
                    if pos + m < sp {
                        assert(data@[pos + m] != 32);
                    }
                    assert(digits@ =~= octal(e.mode as nat));
                    assert(v == e.mode);
                }
            }
        }
        return None;
    }
    let mut nul: usize = sp + 1;
    while nul < data.len() && data[nul] != 0
        invariant
            sp < nul <= data@.len(),
            forall|i: int| sp < i < nul ==> data@[i] != 0,
        decreases data@.len() - nul,
    {
        nul += 1;
    }
    if nul == data.len() || data.len() - nul < 21 {
        proof {
            assert forall|e: EntryView|
                record_exact(e) && pos + record_bytes(e).len() <= data@.len() implies data@.subrange(
                pos as int,
                pos + record_bytes(e).len(),
            ) != record_bytes(e) by {
                if data@.subrange(pos as int, pos + record_bytes(e).len()) == record_bytes(e) {
                    lemma_record_at(data@, pos as int, e);
                    lemma_octal(e.mode as nat);
                    let m = octal(e.mode as nat).len() as int;
                    if sp < pos + m {
                        assert(data@[sp as int] == octal(e.mode as nat)[sp - pos]);
                    }
                    if pos + m < sp {
                        assert(data@[pos + m] != 32);
                    }
                    let n = e.name.len() as int;
                    if nul < sp + 1 + n {
                        assert(data@[nul as int] == e.name[nul - sp - 1]);
                    }
                    if sp + 1 + n < nul {
                        assert(data@[sp + 1 + n] == 0);
                    }
                }
            }
        }
        return None;
    }
    let name = slice_to_vec(data, sp + 1, nul);
    let oid = slice_to_vec(data, nul + 1, nul + 21);
    let e = Entry { name, oid, mode: v };
    proof {
        let d = data@;
        assert(digits@ =~= octal(v as nat));
        assert(d.subrange(pos as int, sp as int) == octal(v as nat));
        assert forall|i: int| 0 <= i < e.name@.len() implies #[trigger] e.name@[i] != 0 by {
            assert(e.name@[i] == d[sp + 1 + i]);
        }
        assert(d.subrange(pos as int, nul + 21) =~= d.subrange(pos as int, sp as int) + seq![32u8]
            + d.subrange(sp + 1, nul as int) + seq![0u8] + d.subrange(nul + 1, nul + 21));
    }
    Some((e, nul + 21))
}

/// Digits that are the octal form of a 32-bit mode are accepted by the digit loop of
/// `parse_record`: each prefix value stays below the bound it checks.
pub proof fn lemma_octal_digits_fit(data: Seq<u8>, pos: int, sp: int, mode: u32)
    requires
        0 <= pos <= sp <= data.len(),
        data.subrange(pos, sp) == octal(mode as nat),
    ensures
        forall|k: int| pos <= k < sp ==> octal_value(data.subrange(pos, k)) < 536870912,
        forall|k: int| pos <= k < sp ==> 48 <= #[trigger] data[k] < 56,
{
    lemma_octal(mode as nat);
    assert forall|k: int| pos <= k < sp implies 48 <= #[trigger] data[k] < 56 by {
        assert(data[k] == data.subrange(pos, sp)[k - pos]);
    }
    assert forall|k: int| pos <= k < sp implies octal_value(data.subrange(pos, k)) < 536870912 by {
        lemma_octal_prefix_le(data.subrange(pos, sp), k - pos);
        assert(data.subrange(pos, sp).subrange(0, k - pos) =~= data.subrange(pos, k));
    }
}

/// A proper prefix of octal digits is worth at most an eighth of the whole.
pub proof fn lemma_octal_prefix_le(s: Seq<u8>, k: int)
    requires
        0 <= k < s.len(),
        forall|i: int| 0 <= i < s.len() ==> 48 <= #[trigger] s[i] < 56,
        octal_value(s) < 4294967296,
    ensures
        octal_value(s.subrange(0, k)) < 536870912,
    decreases s.len(),
{
    let d = s.drop_last();
    assert(octal_value(s) == octal_value(d) * 8 + (s.last() - 48) as nat);
    assert(octal_value(d) < 536870912);
    if k < d.len() {
        assert forall|i: int| 0 <= i < d.len() implies 48 <= #[trigger] d[i] < 56 by {
            assert(d[i] == s[i]);
        }
        lemma_octal_prefix_le(d, k);
        assert(d.subrange(0, k) =~= s.subrange(0, k));
    } else {
        assert(d =~= s.subrange(0, k));
    }
}

} // verus!

verus! {

/// An item of a tree under construction: a file entry, or a subtree still to be written.
#[derive(Debug)]
pub enum TreeEntry {
    Entry(Entry),
    Tree(Tree),
}

/// A directory: named items in increasing name order.
#[derive(Debug)]
pub struct Tree {
    pub entries: Vec<(Vec<u8>, TreeEntry)>,
}

/// The records of the first `i` items of `t`.
pub open spec fn records_upto(t: Tree, i: int) -> Seq<EntryView>
    decreases t, i, 1int,
{
    if i <= 0 || i > t.entries@.len() {
        Seq::<EntryView>::empty()
    } else {
        records_upto(t, i - 1).push(record_at(t, i - 1))
    }
}

/// The record of item `i` of `t`; a subtree is recorded with its object id.
pub open spec fn record_at(t: Tree, i: int) -> EntryView
    decreases t, i, 0int,
{
    if 0 <= i < t.entries@.len() {
        let (name, item) = t.entries@[i];
        match item {
            TreeEntry::Entry(e) => EntryView { name: name@, oid: e.oid@, mode: e.mode },
            TreeEntry::Tree(sub) => {
                proof {
                    vstd::std_specs::vec::axiom_vec_index_decreases(t.entries, i);
                }
                EntryView { name: name@, oid: tree_oid(sub), mode: TREE_MODE }
            },
        }
    } else {
        EntryView { name: Seq::empty(), oid: Seq::empty(), mode: 0 }
    }
}

/// The records of all items of `t`.
pub open spec fn tree_records(t: Tree) -> Seq<EntryView> {
    records_upto(t, t.entries@.len() as int)
}

/// The object id of a tree: that of the body made of its records.
pub open spec fn tree_oid(t: Tree) -> Seq<u8>
    decreases t, t.entries@.len() + 1, 0int,
{
    crate::object::object_id(crate::object::ObjectKind::Tree, tree_bytes(records_upto(t, t.entries@.len() as int)))
}

} // verus!

verus! {

/// The records of the first `n` items carry the items' names, in order.
pub proof fn lemma_record_names(t: Tree, n: int)
    requires
        0 <= n <= t.entries@.len(),
    ensures
        records_upto(t, n).len() == n,
        forall|i: int| 0 <= i < n ==> (#[trigger] records_upto(t, n)[i]).name == t.entries@[i].0@,
    decreases n,
{
    if n > 0 {
        lemma_record_names(t, n - 1);
        assert(records_upto(t, n) == records_upto(t, n - 1).push(record_at(t, n - 1)));
        assert(record_at(t, n - 1).name == t.entries@[n - 1].0@);
        assert forall|i: int| 0 <= i < n implies (#[trigger] records_upto(t, n)[i]).name == t.entries@[i].0@ by {
            if i < n - 1 {
                assert(records_upto(t, n)[i] == records_upto(t, n - 1)[i]);
            }
        }
    }
}

/// The trees to store for `t`, each as its object id and body: the subtrees of its items in
/// item order, each listed the same way, then `t` itself.
pub open spec fn postorder(t: Tree) -> Seq<(Seq<u8>, Seq<u8>)>
    decreases t, t.entries@.len() + 1,
{
    postorder_items(t, t.entries@.len() as int).push((tree_oid(t), tree_bytes(tree_records(t))))
}

/// The trees to store for the subtrees among the first `n` items of `t`.
pub open spec fn postorder_items(t: Tree, n: int) -> Seq<(Seq<u8>, Seq<u8>)>
    decreases t, n,
    via postorder_items_decreases
{
    if n <= 0 || n > t.entries@.len() {
        Seq::empty()
    } else {
        postorder_items(t, n - 1) + match t.entries@[n - 1].1 {
            TreeEntry::Tree(sub) => postorder(sub),
            TreeEntry::Entry(_) => Seq::empty(),
        }
    }
}

#[via_fn]
proof fn postorder_items_decreases(t: Tree, n: int) {
    if 0 < n <= t.entries@.len() {
        vstd::std_specs::vec::axiom_vec_index_decreases(t.entries, n - 1);
    }
}

/// The pairs of a list of ids and bodies, as byte strings.
pub open spec fn pairs_view(v: Seq<(Vec<u8>, Vec<u8>)>) -> Seq<(Seq<u8>, Seq<u8>)> {
    v.map_values(|p: (Vec<u8>, Vec<u8>)| (p.0@, p.1@))
}

/// Whether `t` and every subtree in it have their item names in increasing order.
pub open spec fn deep_sorted(t: Tree) -> bool
    decreases t, t.entries@.len() + 1,
{
    names_sorted(t) && subtrees_sorted(t, t.entries@.len() as int)
}

/// Whether the subtrees among the first `n` items of `t` are deeply sorted.
pub open spec fn subtrees_sorted(t: Tree, n: int) -> bool
    decreases t, n,
    via subtrees_sorted_decreases
{
    if n <= 0 || n > t.entries@.len() {
        true
    } else {
        subtrees_sorted(t, n - 1) && match t.entries@[n - 1].1 {
            TreeEntry::Tree(sub) => deep_sorted(sub),
            TreeEntry::Entry(_) => true,
        }
    }
}

#[via_fn]
proof fn subtrees_sorted_decreases(t: Tree, n: int) {
    if 0 < n <= t.entries@.len() {
        vstd::std_specs::vec::axiom_vec_index_decreases(t.entries, n - 1);
    }
}

/// Whether an item is a file or a deeply sorted subtree.
pub open spec fn item_sorted(item: TreeEntry) -> bool {
    match item {
        TreeEntry::Tree(sub) => deep_sorted(sub),
        TreeEntry::Entry(_) => true,
    }
}

/// The subtrees among the first `n` items are deeply sorted exactly when each item is.
pub proof fn lemma_subtrees_sorted(t: Tree, n: int)
    requires
        0 <= n <= t.entries@.len(),
    ensures
        subtrees_sorted(t, n) <==> forall|i: int| 0 <= i < n ==> item_sorted(#[trigger] t.entries@[i].1),
    decreases n,
{
    if n > 0 {
        lemma_subtrees_sorted(t, n - 1);
    }
}

/// Whether `x` is a file entry anywhere in `t`.
pub open spec fn has_leaf(t: Tree, x: EntryView) -> bool
    decreases t, t.entries@.len() + 1,
{
    leaf_upto(t, t.entries@.len() as int, x)
}

/// Whether `x` is a file entry among or below the first `n` items of `t`.
pub open spec fn leaf_upto(t: Tree, n: int, x: EntryView) -> bool
    decreases t, n,
    via leaf_upto_decreases
{
    if n <= 0 || n > t.entries@.len() {
        false
    } else {
        leaf_upto(t, n - 1, x) || match t.entries@[n - 1].1 {
            TreeEntry::Tree(sub) => has_leaf(sub, x),
            TreeEntry::Entry(e) => e@ == x,
        }
    }
}

#[via_fn]
proof fn leaf_upto_decreases(t: Tree, n: int, x: EntryView) {
    if 0 < n <= t.entries@.len() {
        vstd::std_specs::vec::axiom_vec_index_decreases(t.entries, n - 1);
    }
}

/// Whether `x` is the file entry of an item, or a file entry below it.
pub open spec fn item_leaf(item: TreeEntry, x: EntryView) -> bool {
    match item {
        TreeEntry::Tree(sub) => has_leaf(sub, x),
        TreeEntry::Entry(e) => e@ == x,
    }
}

/// A file entry lies among the first `n` items exactly when one of them holds it.
pub proof fn lemma_leaf_upto(t: Tree, n: int, x: EntryView)
    requires
        0 <= n <= t.entries@.len(),
    ensures
        leaf_upto(t, n, x) <==> exists|i: int| 0 <= i < n && item_leaf(#[trigger] t.entries@[i].1, x),
    decreases n,
{
    if n > 0 {
        lemma_leaf_upto(t, n - 1, x);
        if item_leaf(t.entries@[n - 1].1, x) {
            assert(0 <= n - 1 < n && item_leaf(t.entries@[n - 1].1, x));
        }
        if exists|i: int| 0 <= i < n && item_leaf(#[trigger] t.entries@[i].1, x) {
            let i = choose|i: int| 0 <= i < n && item_leaf(#[trigger] t.entries@[i].1, x);
            if i < n - 1 {
                assert(0 <= i < n - 1 && item_leaf(t.entries@[i].1, x));
            }
        }
    }
}

/// When a tree's items are those of `o` but for `item` under `key`, its file entries are
/// those of `o` or of `item`.
pub proof fn lemma_leaf_insert(o: Tree, f: Tree, key: Seq<u8>, item: TreeEntry, x: EntryView)
    requires
        forall|j: int| 0 <= j < f.entries@.len() && (#[trigger] f.entries@[j]).0@ != key ==> o.entries@.contains(f.entries@[j]),
        forall|j: int| 0 <= j < f.entries@.len() && (#[trigger] f.entries@[j]).0@ == key ==> f.entries@[j].1 == item,
    ensures
        has_leaf(f, x) ==> has_leaf(o, x) || item_leaf(item, x),
{
    lemma_leaf_upto(f, f.entries@.len() as int, x);
    lemma_leaf_upto(o, o.entries@.len() as int, x);
    if has_leaf(f, x) {
        let j = choose|j: int| 0 <= j < f.entries@.len() && item_leaf(#[trigger] f.entries@[j].1, x);
        if f.entries@[j].0@ != key {
            let m = choose|m: int| 0 <= m < o.entries@.len() && o.entries@[m] == f.entries@[j];
            assert(item_leaf(o.entries@[m].1, x));
        }
    }
}

/// In a name-sorted tree the item under `key`, when `item` is one, is the only one.
pub proof fn lemma_key_unique(f: Tree, key: Seq<u8>, item: TreeEntry)
    requires
        names_sorted(f),
        exists|j: int| 0 <= j < f.entries@.len() && (#[trigger] f.entries@[j]).0@ == key && f.entries@[j].1 == item,
    ensures
        forall|j: int| 0 <= j < f.entries@.len() && (#[trigger] f.entries@[j]).0@ == key ==> f.entries@[j].1 == item,
{
    let w = choose|j: int| 0 <= j < f.entries@.len() && (#[trigger] f.entries@[j]).0@ == key && f.entries@[j].1 == item;
    assert forall|j: int| 0 <= j < f.entries@.len() && (#[trigger] f.entries@[j]).0@ == key implies f.entries@[j].1 == item by {
        if j != w {
            assert(item_names(f)[j] == f.entries@[j].0@);
            assert(item_names(f)[w] == f.entries@[w].0@);
            if j < w {
                crate::codec::lemma_lt_asymmetric(item_names(f)[j], item_names(f)[w]);
            } else {
                crate::codec::lemma_lt_asymmetric(item_names(f)[w], item_names(f)[j]);
            }
        }
    }
}

/// A name-sorted tree whose items are those of a deeply sorted tree, but for one deeply
/// sorted item under `key`, is deeply sorted.
pub proof fn lemma_deep_insert(o: Tree, f: Tree, key: Seq<u8>, item: TreeEntry)
    requires
        names_sorted(f),
        item_sorted(item),
        exists|j: int| 0 <= j < f.entries@.len() && (#[trigger] f.entries@[j]).0@ == key && f.entries@[j].1 == item,
        forall|j: int| 0 <= j < f.entries@.len() && (#[trigger] f.entries@[j]).0@ != key ==> o.entries@.contains(f.entries@[j]),
        deep_sorted(o),
    ensures
        deep_sorted(f),
{
    lemma_subtrees_sorted(o, o.entries@.len() as int);
    let w = choose|j: int| 0 <= j < f.entries@.len() && (#[trigger] f.entries@[j]).0@ == key && f.entries@[j].1 == item;
    assert forall|j: int| 0 <= j < f.entries@.len() implies item_sorted(#[trigger] f.entries@[j].1) by {
        if f.entries@[j].0@ != key {
            assert(o.entries@.contains(f.entries@[j]));
            let m = choose|m: int| 0 <= m < o.entries@.len() && o.entries@[m] == f.entries@[j];
            assert(item_sorted(o.entries@[m].1));
        } else if j != w {
            assert(item_names(f)[j] == f.entries@[j].0@);
            assert(item_names(f)[w] == f.entries@[w].0@);
            if j < w {
                crate::codec::lemma_lt_asymmetric(item_names(f)[j], item_names(f)[w]);
            } else {
                crate::codec::lemma_lt_asymmetric(item_names(f)[w], item_names(f)[j]);
            }
        }
    }
    lemma_subtrees_sorted(f, f.entries@.len() as int);
}

/// The names of a tree's items, in order.
pub open spec fn item_names(t: Tree) -> Seq<Seq<u8>> {
    t.entries@.map_values(|p: (Vec<u8>, TreeEntry)| p.0@)
}

/// Item names strictly increasing.
pub open spec fn names_sorted(t: Tree) -> bool {
    forall|i: int, j: int| 0 <= i < j < t.entries@.len() ==> bytes_lt(item_names(t)[i], item_names(t)[j])
}

impl TreeEntry {
    /// The mode a tree records for this item.
    pub fn mode(&self) -> (r: u32)
        ensures
            r == match self {
                TreeEntry::Entry(e) => tree_mode(e.mode),
                TreeEntry::Tree(_) => TREE_MODE,
            },
    {
        match self {
            TreeEntry::Entry(e) => e.mode(),
            TreeEntry::Tree(_) => TREE_MODE,
        }
    }

    /// Whether this item is a subtree: its mode is the subtree mode.
    pub fn is_tree(&self) -> (r: bool)
        ensures
            r == match self {
                TreeEntry::Entry(e) => tree_mode(e.mode) == TREE_MODE,
                TreeEntry::Tree(_) => true,
            },
    {
        self.mode() == TREE_MODE
    }

    /// The object id of this item: recorded for an entry, computed for a subtree.
    pub fn get_oid(&self) -> (r: Vec<u8>)
        ensures
            r@ == match self {
                TreeEntry::Entry(e) => e.oid@,
                TreeEntry::Tree(t) => tree_oid(*t),
            },
        decreases self, 2int,
    {
        match self {
            TreeEntry::Entry(e) => copy_bytes(&e.oid),
            TreeEntry::Tree(t) => t.get_oid(),
        }
    }
}

impl Tree {
    /// An empty tree.
    pub fn new() -> (r: Tree)
        ensures
            r.entries@.len() == 0,
    {
        Tree { entries: Vec::new() }
    }

    /// The body of this tree: the records of its items, subtrees by their object ids, in the
    /// order of its items (name order for a tree whose names are sorted).
    pub fn to_bytes(&self) -> (r: Vec<u8>)
        ensures
            r@ == tree_bytes(tree_records(*self)),
            names_sorted(*self) ==> sorted_names(tree_records(*self)),
        decreases self, 0int,
    {
        let mut r: Vec<u8> = Vec::new();
        let mut i: usize = 0;
        while i < self.entries.len()
            invariant
                i <= self.entries@.len(),
                r@ == tree_bytes(records_upto(*self, i as int)),
            decreases self.entries@.len() - i,
        {
            let (name, item) = &self.entries[i];
            proof {
                vstd::std_specs::vec::axiom_vec_index_decreases(self.entries, i as int);
            }
            let oid = item.get_oid();
            let mode = match item {
                TreeEntry::Entry(x) => x.mode,
                TreeEntry::Tree(_) => TREE_MODE,
            };
            let e = Entry { name: copy_bytes(name), oid, mode };
            let rec = e.record();
            push_all(&mut r, &rec);
            proof {
                assert(e@ == record_at(*self, i as int));
                lemma_tree_bytes_push(records_upto(*self, i as int), e@);
            }
            i += 1;
        }
        proof {
            if names_sorted(*self) {
                lemma_record_names(*self, self.entries@.len() as int);
                assert forall|a: int, b: int| 0 <= a < b < tree_records(*self).len() implies bytes_lt(
                    tree_records(*self)[a].name,
                    tree_records(*self)[b].name,
                ) by {
                    assert(item_names(*self)[a] == self.entries@[a].0@);
                    assert(item_names(*self)[b] == self.entries@[b].0@);
                }
            }
        }
        r
    }

    /// The object id of this tree.
    pub fn get_oid(&self) -> (r: Vec<u8>)
        ensures
            r@ == tree_oid(*self),
        decreases self, 1int,
    {
        let body = self.to_bytes();
        crate::object::oid_of(crate::object::ObjectKind::Tree, &body)
    }
}

} // verus!

verus! {

impl Tree {
    /// Sets the item called `key`, replacing one of that name or inserting it in name order.
    pub fn insert_item(&mut self, key: Vec<u8>, item: TreeEntry)
        ensures
            names_sorted(*old(self)) ==> names_sorted(*final(self)),
            exists|j: int|
                0 <= j < final(self).entries@.len() && (#[trigger] final(self).entries@[j]).0@ == key@
                    && final(self).entries@[j].1 == item,
            forall|i: int|
                0 <= i < old(self).entries@.len() && (#[trigger] old(self).entries@[i]).0@ != key@
                    ==> final(self).entries@.contains(old(self).entries@[i]),
            forall|j: int|
                0 <= j < final(self).entries@.len() && (#[trigger] final(self).entries@[j]).0@ != key@
                    ==> old(self).entries@.contains(final(self).entries@[j]),
    {
        let ghost old_e = self.entries@;
        let ghost old_names = item_names(*self);
        let ghost was_sorted = names_sorted(*self);
        proof {
            if was_sorted {
                assert forall|a: int, b: int| 0 <= a < b < old_e.len() implies bytes_lt(old_e[a].0@, old_e[b].0@) by {
                    assert(old_names[a] == old_e[a].0@);
                    assert(old_names[b] == old_e[b].0@);
                }
            }
        }
        let n = self.entries.len();
        let mut i: usize = 0;
        while i < n && compare_bytes(&self.entries[i].0, &key) < 0
            invariant
                n == self.entries@.len(),
                self.entries@ == old_e,
                was_sorted == names_sorted(*old(self)),
                was_sorted ==> forall|a: int, b: int| 0 <= a < b < old_e.len() ==> bytes_lt(old_e[a].0@, old_e[b].0@),
                i <= n,
                forall|a: int| 0 <= a < i ==> bytes_lt((#[trigger] self.entries@[a]).0@, key@),
            decreases n - i,
        {
            i += 1;
        }
        let ghost kv = key@;
        if i < n && compare_bytes(&self.entries[i].0, &key) == 0 {
            self.entries.set(i, (key, item));
            proof {
                let f = self.entries@;
                assert(f[i as int].0@ == kv);
                if was_sorted {
                    assert forall|a: int, b: int| 0 <= a < b < f.len() implies bytes_lt(
                        item_names(*self)[a],
                        item_names(*self)[b],
                    ) by {
                        assert(item_names(*self)[a] == old_e[a].0@);
                        assert(item_names(*self)[b] == old_e[b].0@);
                        assert(bytes_lt(old_e[a].0@, old_e[b].0@));
                    }
                }
                assert forall|a: int| 0 <= a < n && (#[trigger] old_e[a]).0@ != kv implies f.contains(old_e[a]) by {
                    assert(a != i);
                    assert(f[a] == old_e[a]);
                }
                assert forall|j: int| 0 <= j < n && (#[trigger] f[j]).0@ != kv implies old_e.contains(f[j]) by {
                    assert(j != i);
                    assert(f[j] == old_e[j]);
                }
            }
        } else {
            self.entries.insert(i, (key, item));
            proof {
                let f = self.entries@;
                assert(f[i as int].0@ == kv);
                if i < n {
                    assert(bytes_lt(kv, old_e[i as int].0@)) by {
                        let c = old_e[i as int].0@;
                        assert(!bytes_lt(c, kv));
                        assert(c != kv);
                        crate::codec::lemma_lt_total(c, kv);
                    }
                }
                if was_sorted {
                    assert forall|a: int, b: int| 0 <= a < b < f.len() implies bytes_lt(
                        item_names(*self)[a],
                        item_names(*self)[b],
                    ) by {
                        let na = item_names(*self)[a];
                        let nb = item_names(*self)[b];
                        if b < i {
                            assert(na == old_e[a].0@ && nb == old_e[b].0@);
                            assert(bytes_lt(old_e[a].0@, old_e[b].0@));
                        } else if b == i {
                            assert(na == old_e[a].0@);
                        } else if a == i {
                            assert(nb == old_e[b - 1].0@);
                            if b - 1 > i {
                                assert(bytes_lt(old_e[i as int].0@, old_e[b - 1].0@));
                                lemma_lt_transitive(kv, old_e[i as int].0@, old_e[b - 1].0@);
                            }
                        } else if a < i {
                            assert(na == old_e[a].0@ && nb == old_e[b - 1].0@);
                            assert(bytes_lt(old_e[a].0@, old_e[b - 1].0@));
                        } else {
                            assert(na == old_e[a - 1].0@ && nb == old_e[b - 1].0@);
                            assert(bytes_lt(old_e[a - 1].0@, old_e[b - 1].0@));
                        }
                    }
                }
                assert forall|a: int| 0 <= a < n && (#[trigger] old_e[a]).0@ != kv implies f.contains(old_e[a]) by {
                    if a < i {
                        assert(f[a] == old_e[a]);
                    } else {
                        assert(f[a + 1] == old_e[a]);
                    }
                }
                assert forall|j: int| 0 <= j < f.len() && (#[trigger] f[j]).0@ != kv implies old_e.contains(f[j]) by {
                    if j < i {
                        assert(f[j] == old_e[j]);
                    } else {
                        assert(j != i);
                        assert(f[j] == old_e[j - 1]);
                    }
                }
            }
        }
    }
}

} // verus!

verus! {

impl Tree {
    /// Places `entry` under the directories `path[k..]`, as item `name` of the innermost one,
    /// creating subtrees that are missing and replacing a file that stands where a directory goes.
    fn add_entry_from(&mut self, path: &[Vec<u8>], k: usize, name: Vec<u8>, entry: Entry)
        requires
            k <= path@.len(),
        ensures
            names_sorted(*old(self)) ==> names_sorted(*final(self)),
            deep_sorted(*old(self)) ==> deep_sorted(*final(self)),
            deep_sorted(*old(self)) ==> forall|x: EntryView|
                #[trigger] has_leaf(*final(self), x) ==> has_leaf(*old(self), x) || x == entry@,
            k == path@.len() ==> exists|j: int|
                0 <= j < final(self).entries@.len() && (#[trigger] final(self).entries@[j]).0@
                    == name@ && final(self).entries@[j].1 == TreeEntry::Entry(entry),
            k < path@.len() ==> exists|j: int|
                0 <= j < final(self).entries@.len() && (#[trigger] final(self).entries@[j]).0@
                    == path@[k as int]@ && final(self).entries@[j].1 is Tree,
            forall|i: int|
                0 <= i < old(self).entries@.len() && (#[trigger] old(self).entries@[i]).0@ != (if k
                    == path@.len() {
                    name@
                } else {
                    path@[k as int]@
                }) ==> final(self).entries@.contains(old(self).entries@[i]),
            forall|j: int|
                0 <= j < final(self).entries@.len() && (#[trigger] final(self).entries@[j]).0@ != (if k
                    == path@.len() {
                    name@
                } else {
                    path@[k as int]@
                }) ==> old(self).entries@.contains(final(self).entries@[j]),
        decreases path@.len() - k,
    {
        if k == path.len() {
            let ghost item = TreeEntry::Entry(entry);
            self.insert_item(name, TreeEntry::Entry(entry));
            proof {
                if deep_sorted(*old(self)) {
                    lemma_deep_insert(*old(self), *self, name@, item);
                    lemma_key_unique(*self, name@, item);
                    assert forall|x: EntryView| #[trigger] has_leaf(*self, x) implies has_leaf(*old(self), x) || x == entry@ by {
                        lemma_leaf_insert(*old(self), *self, name@, item, x);
                    }
                }
            }
            return;
        }
        let key = copy_bytes(&path[k]);
        let mut sub = Tree::new();
        let mut i: usize = 0;
        while i < self.entries.len() && compare_bytes(&self.entries[i].0, &key) != 0
            invariant
                i <= self.entries@.len(),
            decreases self.entries@.len() - i,
        {
            i += 1;
        }
        let ghost old_e = self.entries@;
        let ghost was_sorted = names_sorted(*self);
        let existing_tree = i < self.entries.len() && match &self.entries[i].1 {
            TreeEntry::Tree(_) => true,
            TreeEntry::Entry(_) => false,
        };
        if existing_tree {
            let (_, item) = self.entries.remove(i);
            match item {
                TreeEntry::Tree(t) => {
                    sub = t;
                },
                TreeEntry::Entry(_) => {},
            }
            proof {
                let f = self.entries@;
                assert(old_e[i as int].0@ == key@);
                assert forall|a: int| 0 <= a < old_e.len() && (#[trigger] old_e[a]).0@ != key@ implies f.contains(old_e[a]) by {
                    if a < i {
                        assert(f[a] == old_e[a]);
                    } else {
                        assert(a != i);
                        assert(f[a - 1] == old_e[a]);
                    }
                }
                assert forall|j: int| 0 <= j < f.len() implies old_e.contains(#[trigger] f[j]) by {
                    if j < i {
                        assert(f[j] == old_e[j]);
                    } else {
                        assert(f[j] == old_e[j + 1]);
                    }
                }
                if was_sorted {
                    assert forall|a: int, b: int| 0 <= a < b < f.len() implies bytes_lt(
                        item_names(*self)[a],
                        item_names(*self)[b],
                    ) by {
                        let oa = if a < i { a } else { a + 1 };
                        let ob = if b < i { b } else { b + 1 };
                        assert(item_names(*self)[a] == old_e[oa].0@);
                        assert(item_names(*self)[b] == old_e[ob].0@);
                        assert(item_names(*old(self))[oa] == old_e[oa].0@);
                        assert(item_names(*old(self))[ob] == old_e[ob].0@);
                    }
                }
            }
        }
        proof {
            if deep_sorted(*old(self)) {
                lemma_subtrees_sorted(*old(self), old_e.len() as int);
                if existing_tree {
                    assert(item_sorted(old_e[i as int].1));
                } else {
                    assert(subtrees_sorted(sub, 0));
                }
            }
        }
        let ghost sub_before = sub;
        sub.add_entry_from(path, k + 1, name, entry);
        let ghost mid = self.entries@;
        let ghost subg = sub;
        self.insert_item(key, TreeEntry::Tree(sub));
        proof {
            let f = self.entries@;
            assert forall|a: int| 0 <= a < old_e.len() && (#[trigger] old_e[a]).0@ != key@ implies f.contains(old_e[a]) by {
                let w = choose|w: int| 0 <= w < mid.len() && mid[w] == old_e[a];
                assert(mid[w].0@ != key@);
            }
            assert forall|j: int| 0 <= j < f.len() && (#[trigger] f[j]).0@ != key@ implies old_e.contains(f[j]) by {
                let w = choose|w: int| 0 <= w < mid.len() && mid[w] == f[j];
                if mid != old_e {
                    assert(old_e.contains(mid[w]));
                } else {
                    assert(old_e[w] == f[j]);
                }
            }
            if deep_sorted(*old(self)) {
                lemma_deep_insert(*old(self), *self, key@, TreeEntry::Tree(subg));
                lemma_key_unique(*self, key@, TreeEntry::Tree(subg));
                lemma_subtrees_sorted(*old(self), old_e.len() as int);
                assert forall|x: EntryView| #[trigger] has_leaf(*self, x) implies has_leaf(*old(self), x) || x == entry@ by {
                    lemma_leaf_insert(*old(self), *self, key@, TreeEntry::Tree(subg), x);
                    if has_leaf(subg, x) && x != entry@ {
                        assert(has_leaf(sub_before, x));
                        if existing_tree {
                            assert(item_leaf(old_e[i as int].1, x));
                            lemma_leaf_upto(*old(self), old_e.len() as int, x);
                        } else {
                            assert(!leaf_upto(sub_before, 0, x));
                        }
                    }
                }
            }
        }
    }

    /// Places `entry` under the directories `path`, as item `name` of the innermost one.
    pub fn add_entry(&mut self, path: &[Vec<u8>], name: Vec<u8>, entry: Entry)
        ensures
            names_sorted(*old(self)) ==> names_sorted(*final(self)),
            deep_sorted(*old(self)) ==> deep_sorted(*final(self)),
            deep_sorted(*old(self)) ==> forall|x: EntryView|
                #[trigger] has_leaf(*final(self), x) ==> has_leaf(*old(self), x) || x == entry@,
            path@.len() == 0 ==> exists|j: int|
                0 <= j < final(self).entries@.len() && (#[trigger] final(self).entries@[j]).0@
                    == name@ && final(self).entries@[j].1 == TreeEntry::Entry(entry),
            path@.len() > 0 ==> exists|j: int|
                0 <= j < final(self).entries@.len() && (#[trigger] final(self).entries@[j]).0@
                    == path@[0]@ && final(self).entries@[j].1 is Tree,
            forall|i: int|
                0 <= i < old(self).entries@.len() && (#[trigger] old(self).entries@[i]).0@ != (if path@.len() == 0 {
                    name@
                } else {
                    path@[0]@
                }) ==> final(self).entries@.contains(old(self).entries@[i]),
    {
        self.add_entry_from(path, 0, name, entry);
    }
}

} // verus!

verus! {

/// Path components joined with `/`.
pub open spec fn join_path(c: Seq<Seq<u8>>) -> Seq<u8>
    decreases c.len(),
{
    if c.len() == 0 {
        Seq::<u8>::empty()
    } else if c.len() == 1 {
        c[0]
    } else {
        join_path(c.drop_last()) + seq![47u8] + c.last()
    }
}

/// Splits a path at each `/` into its components.
pub fn split_path(p: &[u8]) -> (r: Vec<Vec<u8>>)
    ensures
        r@.len() >= 1,
        join_path(r@.map_values(|c: Vec<u8>| c@)) == p@,
        forall|i: int, j: int| 0 <= i < r@.len() && 0 <= j < r@[i]@.len() ==> r@[i]@[j] != 47,
{
    let mut r: Vec<Vec<u8>> = Vec::new();
    let mut start: usize = 0;
    let mut i: usize = 0;
    while i < p.len()
        invariant
            start <= i <= p@.len(),
            r@.len() == 0 ==> start == 0,
            r@.len() > 0 ==> start >= 1 && p@[start - 1] == 47 && join_path(r@.map_values(|c: Vec<u8>| c@))
                == p@.subrange(0, start - 1),
            forall|k: int| start <= k < i ==> p@[k] != 47,
            forall|a: int, b: int| 0 <= a < r@.len() && 0 <= b < r@[a]@.len() ==> r@[a]@[b] != 47,
        decreases p@.len() - i,
    {
        if p[i] == 47 {
            let comp = slice_to_vec(p, start, i);
            let ghost before = r@.map_values(|c: Vec<u8>| c@);
            r.push(comp);
            proof {
                let after = r@.map_values(|c: Vec<u8>| c@);
                assert(after.drop_last() =~= before);
                if before.len() == 0 {
                    assert(join_path(after) == after[0]);
                    assert(p@.subrange(0, i as int) =~= comp@);
                } else {
                    assert(p@.subrange(0, i as int) =~= p@.subrange(0, start - 1) + seq![47u8] + comp@);
                }
            }
            start = i + 1;
        }
        i += 1;
    }
    let last = slice_to_vec(p, start, p.len());
    let ghost before = r@.map_values(|c: Vec<u8>| c@);
    r.push(last);
    proof {
        let after = r@.map_values(|c: Vec<u8>| c@);
        assert(after.drop_last() =~= before);
        if before.len() == 0 {
            assert(p@ =~= last@);
        } else {
            assert(p@ =~= p@.subrange(0, start - 1) + seq![47u8] + last@);
        }
    }
    r
}

/// Whether `t` has an item called `key`.
pub open spec fn has_key(t: Tree, key: Seq<u8>) -> bool {
    exists|j: int| 0 <= j < t.entries@.len() && (#[trigger] t.entries@[j]).0@ == key
}

/// Whether `key` is the first component of path `p`: a prefix without `/` that ends the path
/// or is followed by `/`.
pub open spec fn leads(p: Seq<u8>, key: Seq<u8>) -> bool {
    &&& key.len() <= p.len()
    &&& p.subrange(0, key.len() as int) == key
    &&& (key.len() == p.len() || p[key.len() as int] == 47)
    &&& forall|i: int| 0 <= i < key.len() ==> #[trigger] key[i] != 47
}

/// Whether the first component of path `p` is an item of `t`.
pub open spec fn placed(t: Tree, p: Seq<u8>) -> bool {
    exists|key: Seq<u8>| leads(p, key) && has_key(t, key)
}

/// The first of the components that a path was split into leads the path.
pub proof fn lemma_join_leads(c: Seq<Seq<u8>>)
    requires
        c.len() >= 1,
        forall|i: int, j: int| 0 <= i < c.len() && 0 <= j < c[i].len() ==> c[i][j] != 47,
    ensures
        leads(join_path(c), c[0]),
    decreases c.len(),
{
    if c.len() == 1 {
        assert(join_path(c).subrange(0, c[0].len() as int) =~= c[0]);
        assert forall|i: int| 0 <= i < c[0].len() implies #[trigger] c[0][i] != 47 by {}
    } else {
        let d = c.drop_last();
        lemma_join_leads(d);
        assert(d[0] == c[0]);
        let j = join_path(d);
        let full = join_path(c);
        assert(full == j + seq![47u8] + c.last());
        assert(full.subrange(0, c[0].len() as int) =~= j.subrange(0, c[0].len() as int));
        if c[0].len() < j.len() {
            assert(full[c[0].len() as int] == j[c[0].len() as int]);
        }
    }
}

impl Tree {
    /// The nested tree of a list of entries whose names are full paths: each entry goes under
    /// the directories its path names, so the first component of every path is an item.
    pub fn build(entries: &[Entry]) -> (r: Tree)
        ensures
            names_sorted(r),
            deep_sorted(r),
            forall|x: EntryView| #[trigger] has_leaf(r, x) ==> exists|i: int| 0 <= i < entries@.len() && (#[trigger] entries@[i])@ == x,
            entries@.len() == 0 ==> r.entries@.len() == 0,
            forall|i: int| 0 <= i < entries@.len() ==> placed(r, (#[trigger] entries@[i]).name@),
    {
        let mut root = Tree::new();
        assert(subtrees_sorted(root, 0));
        assert forall|x: EntryView| !#[trigger] has_leaf(root, x) by {
            assert(!leaf_upto(root, 0, x));
        }
        let mut i: usize = 0;
        while i < entries.len()
            invariant
                i <= entries@.len(),
                names_sorted(root),
                deep_sorted(root),
                forall|x: EntryView| #[trigger] has_leaf(root, x) ==> exists|q: int| 0 <= q < i && (#[trigger] entries@[q])@ == x,
                i == 0 ==> root.entries@.len() == 0,
                forall|k: int| 0 <= k < i ==> placed(root, (#[trigger] entries@[k]).name@),
            decreases entries@.len() - i,
        {
            let e = &entries[i];
            let mut path = split_path(&e.name);
            let ghost comps = path@.map_values(|c: Vec<u8>| c@);
            proof {
                lemma_join_leads(comps);
            }
            let ghost first = path@[0]@;
            let name = path.pop().unwrap();
            let ghost before = root;
            let dup = e.duplicate();
            let ghost dv = dup@;
            root.add_entry(&path, name, dup);
            proof {
                assert forall|x: EntryView| #[trigger] has_leaf(root, x) implies exists|q: int| 0 <= q < i + 1 && (#[trigger] entries@[q])@ == x by {
                    if x == dv {
                        assert(entries@[i as int]@ == x);
                    } else {
                        let q = choose|q: int| 0 <= q < i && (#[trigger] entries@[q])@ == x;
                    }
                }
            }
            proof {
                assert(comps[0] == first);
                assert(has_key(root, first)) by {
                    if path@.len() == 0 {
                        assert(name@ == first);
                    } else {
                        assert(path@[0]@ == first);
                    }
                }
                assert forall|k: int| 0 <= k < i + 1 implies placed(root, (#[trigger] entries@[k]).name@) by {
                    if k < i {
                        assert(placed(before, entries@[k].name@));
                        let key = choose|key: Seq<u8>| leads(entries@[k].name@, key) && has_key(before, key);
                        let j = choose|j: int| 0 <= j < before.entries@.len() && (#[trigger] before.entries@[j]).0@ == key;
                        if key != first {
                            assert(root.entries@.contains(before.entries@[j]));
                            let w = choose|w: int| 0 <= w < root.entries@.len() && root.entries@[w] == before.entries@[j];
                            assert(root.entries@[w].0@ == key);
                        }
                        assert(leads(entries@[k].name@, key) && has_key(root, key));
                    } else {
                        assert(leads(entries@[k].name@, first) && has_key(root, first));
                    }
                }
            }
            i += 1;
        }
        root
    }

    /// The trees to store for this tree, subtrees before the trees that hold them, each as its
    /// object id and body; this tree comes last.
    pub fn traverse(&self) -> (r: Vec<(Vec<u8>, Vec<u8>)>)
        ensures
            pairs_view(r@) == postorder(*self),
            r@.len() >= 1,
            r@.last().0@ == tree_oid(*self),
            r@.last().1@ == tree_bytes(tree_records(*self)),
            forall|k: int|
                0 <= k < r@.len() ==> (#[trigger] r@[k]).0@ == crate::object::object_id(
                    crate::object::ObjectKind::Tree,
                    r@[k].1@,
                ),
        decreases self,
    {
        let mut out: Vec<(Vec<u8>, Vec<u8>)> = Vec::new();
        assert(pairs_view(out@) =~= postorder_items(*self, 0));
        let mut i: usize = 0;
        while i < self.entries.len()
            invariant
                i <= self.entries@.len(),
                pairs_view(out@) == postorder_items(*self, i as int),
                forall|k: int|
                    0 <= k < out@.len() ==> (#[trigger] out@[k]).0@ == crate::object::object_id(
                        crate::object::ObjectKind::Tree,
                        out@[k].1@,
                    ),
            decreases self.entries@.len() - i,
        {
            match &self.entries[i].1 {
                TreeEntry::Tree(t) => {
                    proof {
                        vstd::std_specs::vec::axiom_vec_index_decreases(self.entries, i as int);
                    }
                    let mut sub = t.traverse();
                    let ghost before = out@;
                    let ghost subs = sub@;
                    out.append(&mut sub);
                    proof {
                        assert(pairs_view(out@) =~= pairs_view(before) + pairs_view(subs));
                        assert(postorder_items(*self, i + 1) == postorder_items(*self, i as int) + postorder(*t));
                        assert forall|k: int| 0 <= k < out@.len() implies (#[trigger] out@[k]).0@
                            == crate::object::object_id(crate::object::ObjectKind::Tree, out@[k].1@) by {
                            if k < before.len() {
                                assert(out@[k] == before[k]);
                            } else {
                                assert(out@[k] == subs[k - before.len()]);
                            }
                        }
                    }
                },
                TreeEntry::Entry(_) => {
                    assert(postorder_items(*self, i + 1) =~= postorder_items(*self, i as int));
                },
            }
            i += 1;
        }
        let body = self.to_bytes();
        let oid = crate::object::oid_of(crate::object::ObjectKind::Tree, &body);
        let ghost before = out@;
        out.push((oid, body));
        proof {
            assert(pairs_view(out@) =~= pairs_view(before).push((out@[out@.len() - 1].0@, out@[out@.len() - 1].1@)));
            assert forall|k: int| 0 <= k < out@.len() implies (#[trigger] out@[k]).0@
                == crate::object::object_id(crate::object::ObjectKind::Tree, out@[k].1@) by {
                if k < before.len() {
                    assert(out@[k] == before[k]);
                }
            }
        }
        out
    }
}

} // verus!

verus! {

/// The records of a tree whose items are all recorded entries.
pub open spec fn flat(t: Tree) -> bool {
    forall|i: int| 0 <= i < t.entries@.len() ==> (#[trigger] t.entries@[i]).1 is Entry
}

pub proof fn lemma_tree_prefix(es: Seq<EntryView>, k: int)
    requires
        0 <= k < es.len(),
    ensures
        tree_bytes(es.subrange(0, k)).len() + record_bytes(es[k]).len() <= tree_bytes(es).len(),
        tree_bytes(es).subrange(
            tree_bytes(es.subrange(0, k)).len() as int,
            (tree_bytes(es.subrange(0, k)).len() + record_bytes(es[k]).len()) as int,
        ) == record_bytes(es[k]),
    decreases es.len(),
{
    let a = tree_bytes(es.subrange(0, k));
    let b = record_bytes(es[k]);
    if k == es.len() - 1 {
        assert(es.drop_last() =~= es.subrange(0, k));
        assert(tree_bytes(es).subrange(a.len() as int, (a.len() + b.len()) as int) =~= b);
    } else {
        let d = es.drop_last();
        lemma_tree_prefix(d, k);
        assert(d.subrange(0, k) =~= es.subrange(0, k));
        let full = tree_bytes(es);
        assert(full == tree_bytes(d) + record_bytes(es.last()));
        assert(full.subrange(a.len() as int, (a.len() + b.len()) as int) =~= tree_bytes(d).subrange(
            a.len() as int,
            (a.len() + b.len()) as int,
        ));
    }
}

/// Two exact records that both start a byte string are the same record.
pub proof fn lemma_record_unique(data: Seq<u8>, e1: EntryView, e2: EntryView)
    requires
        record_exact(e1),
        record_exact(e2),
        record_bytes(e1).len() <= data.len(),
        record_bytes(e2).len() <= data.len(),
        data.subrange(0, record_bytes(e1).len() as int) == record_bytes(e1),
        data.subrange(0, record_bytes(e2).len() as int) == record_bytes(e2),
    ensures
        e1 == e2,
{
    lemma_record_at(data, 0, e1);
    lemma_record_at(data, 0, e2);
    lemma_octal(e1.mode as nat);
    lemma_octal(e2.mode as nat);
    let o1 = octal(e1.mode as nat);
    let o2 = octal(e2.mode as nat);
    let m1 = o1.len() as int;
    let m2 = o2.len() as int;
    if m1 < m2 {
        assert(data[0 + m1] == 32);
        assert(data[0 + m1] == o2[m1]);
    }
    if m2 < m1 {
        assert(data[0 + m2] == 32);
        assert(data[0 + m2] == o1[m2]);
    }
    assert forall|i: int| 0 <= i < m1 implies o1[i] == o2[i] by {
        assert(data[0 + i] == o1[i]);
        assert(data[0 + i] == o2[i]);
    }
    assert(o1 =~= o2);
    assert(e1.mode == e2.mode);
    let n1 = e1.name.len() as int;
    let n2 = e2.name.len() as int;
    if n1 < n2 {
        assert(data[0 + m1 + 1 + n1] == 0);
        assert(data[0 + m1 + 1 + n1] == e2.name[n1]);
    }
    if n2 < n1 {
        assert(data[0 + m1 + 1 + n2] == 0);
        assert(data[0 + m1 + 1 + n2] == e1.name[n2]);
    }
    assert forall|i: int| 0 <= i < n1 implies e1.name[i] == e2.name[i] by {
        assert(data[0 + m1 + 1 + i] == e1.name[i]);
        assert(data[0 + m1 + 1 + i] == e2.name[i]);
    }
    assert(e1.name =~= e2.name);
}

impl Tree {
    /// Reads a tree body. Succeeds exactly on bodies of storable record lists, giving a flat
    /// tree of those records.
    pub fn parse(data: &[u8]) -> (r: Option<Tree>)
        ensures
            match r {
                Some(t) => flat(t) && tree_storable(tree_records(t)) && tree_bytes(tree_records(t))
                    == data@ && deep_sorted(t),
                None => forall|es: Seq<EntryView>| tree_storable(es) ==> tree_bytes(es) != data@,
            },
    {
        let ghost has_w = exists|es: Seq<EntryView>| tree_storable(es) && tree_bytes(es) == data@;
        let ghost w = choose|es: Seq<EntryView>| tree_storable(es) && tree_bytes(es) == data@;
        let mut t = Tree::new();
        let mut pos: usize = 0;
        let mut k: usize = 0;
        while pos < data.len()
            invariant
                pos <= data@.len(),
                k <= pos,
                k == t.entries@.len(),
                flat(t),
                tree_storable(tree_records(t)),
                tree_records(t).len() == k,
                data@.subrange(0, pos as int) == tree_bytes(tree_records(t)),
                has_w == exists|es: Seq<EntryView>| tree_storable(es) && tree_bytes(es) == data@,
                has_w ==> tree_storable(w) && tree_bytes(w) == data@ && k <= w.len() && tree_records(t)
                    == w.subrange(0, k as int),
            decreases data@.len() - pos,
        {
            proof {
                if has_w {
                    if k == w.len() {
                        assert(w.subrange(0, k as int) =~= w);
                    }
                    assert(k < w.len());
                    lemma_tree_prefix(w, k as int);
                    let off = tree_bytes(w.subrange(0, k as int)).len();
                    assert(data@.subrange(pos as int, pos + record_bytes(w[k as int]).len()) =~= tree_bytes(
                        w,
                    ).subrange(off as int, (off + record_bytes(w[k as int]).len()) as int));
                }
            }
            match parse_record(data, pos) {
                None => {
                    assert(!has_w);
                    return None;
                },
                Some((e, end)) => {
                    proof {
                        if has_w {
                            let ek = w[k as int];
                            let tail = data@.subrange(pos as int, data@.len() as int);
                            assert(tail.subrange(0, record_bytes(ek).len() as int) =~= data@.subrange(
                                pos as int,
                                pos + record_bytes(ek).len(),
                            ));
                            assert(tail.subrange(0, record_bytes(e@).len() as int) =~= data@.subrange(
                                pos as int,
                                end as int,
                            ));
                            lemma_record_unique(tail, ek, e@);
                        }
                    }
                    if k > 0 && compare_bytes(&t.entries[k - 1].0, &e.name) >= 0 {
                        proof {
                            if has_w {
                                assert(tree_records(t)[k - 1] == w[k - 1]);
                                assert(record_at(t, k - 1).name == t.entries@[k - 1].0@);
                                lemma_lt_asymmetric(w[k - 1].name, w[k as int].name);
                            }
                        }
                        return None;
                    }
                    let ghost old_t = t;
                    let ghost ev = e@;
                    let key = copy_bytes(&e.name);
                    t.entries.push((key, TreeEntry::Entry(e)));
                    proof {
                        assert forall|i: int| 0 <= i < k implies record_at(t, i) == record_at(old_t, i) by {
                            assert(t.entries@[i] == old_t.entries@[i]);
                        }
                        assert forall|i: int| 0 <= i <= k implies records_upto(t, i) == records_upto(old_t, i) by {
                            lemma_records_upto_same(t, old_t, i);
                        }
                        assert(record_at(t, k as int) == ev);
                        assert(tree_records(t) == tree_records(old_t).push(ev));
                        lemma_tree_bytes_push(tree_records(old_t), ev);
                        assert(data@.subrange(0, end as int) =~= data@.subrange(0, pos as int) + data@.subrange(
                            pos as int,
                            end as int,
                        ));
                        let rs = tree_records(t);
                        assert forall|a: int, b: int| 0 <= a < b < rs.len() implies bytes_lt(rs[a].name, rs[b].name) by {
                            if b == k {
                                assert(rs[k - 1] == tree_records(old_t)[k - 1]);
                                assert(records_upto(old_t, k as int) == records_upto(old_t, k - 1).push(
                                    record_at(old_t, k - 1),
                                ));
                                assert(record_at(old_t, k - 1).name == old_t.entries@[k - 1].0@);
                                assert(rs[k - 1].name == old_t.entries@[k - 1].0@);
                                if a < k - 1 {
                                    lemma_lt_transitive(rs[a].name, rs[k - 1].name, rs[b].name);
                                }
                            } else {
                                assert(rs[a] == tree_records(old_t)[a]);
                                assert(rs[b] == tree_records(old_t)[b]);
                            }
                        }
                        assert forall|i: int| 0 <= i < rs.len() implies record_exact(#[trigger] rs[i]) by {
                            if i < k {
                                assert(rs[i] == tree_records(old_t)[i]);
                            }
                        }
                        assert forall|i: int| 0 <= i < t.entries@.len() implies (#[trigger] t.entries@[i]).1 is Entry by {
                            if i < k {
                                assert(t.entries@[i] == old_t.entries@[i]);
                            }
                        }
                        if has_w {
                            assert(w.subrange(0, k + 1) =~= w.subrange(0, k as int).push(w[k as int]));
                        }
                    }
                    pos = end;
                    k = k + 1;
                },
            }
        }
        proof {
            assert(data@.subrange(0, pos as int) =~= data@);
            let rs = tree_records(t);
            lemma_record_names(t, t.entries@.len() as int);
            assert forall|a: int, b: int| 0 <= a < b < t.entries@.len() implies bytes_lt(item_names(t)[a], item_names(t)[b]) by {
                assert(item_names(t)[a] == rs[a].name);
                assert(item_names(t)[b] == rs[b].name);
            }
            assert forall|j: int| 0 <= j < t.entries@.len() implies item_sorted(#[trigger] t.entries@[j].1) by {
                assert(t.entries@[j].1 is Entry);
            }
            lemma_subtrees_sorted(t, t.entries@.len() as int);
        }
        Some(t)
    }
}

/// Two trees that agree on their first `i` items have the same records up to `i`.
pub proof fn lemma_records_upto_same(t: Tree, u: Tree, i: int)
    requires
        0 <= i <= t.entries@.len(),
        i <= u.entries@.len(),
        forall|j: int| 0 <= j < i ==> t.entries@[j] == u.entries@[j],
    ensures
        records_upto(t, i) == records_upto(u, i),
    decreases i,
{
    if i > 0 {
        lemma_records_upto_same(t, u, i - 1);
        assert(record_at(t, i - 1) == record_at(u, i - 1));
    }
}

} // verus!
