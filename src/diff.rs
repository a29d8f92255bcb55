use vstd::prelude::*;

use crate::codec::{compare_bytes, copy_bytes, slice_to_vec};

verus! {

/// A line of text and its number (from 1).
#[derive(Debug)]
pub struct Line {
    pub number: usize,
    pub text: Vec<u8>,
}

impl Line {
    /// Line `number` holding `text`.
    pub fn new(number: usize, text: &[u8]) -> (r: Line)
        ensures
            r.number == number,
            r.text@ == text@,
    {
        Line { number, text: copy_bytes(text) }
    }

    /// A copy of this line.
    pub fn duplicate(&self) -> (r: Line)
        ensures
            r.number == self.number,
            r.text@ == self.text@,
    {
        Line { number: self.number, text: copy_bytes(&self.text) }
    }
}

/// The kind of one step of an edit script.
#[derive(Clone, Copy, Debug, PartialEq, Eq, Structural)]
pub enum EditType {
    Eql,
    Ins,
    Del,
}

impl EditType {
    /// The marker printed before a line of this kind: space, `+` or `-`.
    pub fn marker(&self) -> (r: u8)
        ensures
            r == match self {
                EditType::Eql => 32u8,
                EditType::Ins => 43u8,
                EditType::Del => 45u8,
            },
    {
        match self {
            EditType::Eql => 32,
            EditType::Ins => 43,
            EditType::Del => 45,
        }
    }
}

/// One step of an edit script: a kept line (both sides), an inserted line (new side) or a
/// deleted line (old side).
#[derive(Debug)]
pub struct Edit {
    pub edit_type: EditType,
    pub a_line: Option<Line>,
    pub b_line: Option<Line>,
}

/// The texts of a list of lines.
pub open spec fn texts(v: Seq<Line>) -> Seq<Seq<u8>> {
    v.map_values(|l: Line| l.text@)
}

/// Whether line `i` of a list is numbered `i + 1`.
pub open spec fn numbered(v: Seq<Line>) -> bool {
    forall|i: int| 0 <= i < v.len() ==> (#[trigger] v[i]).number == i + 1
}

/// A well-formed step: a kept line has equal texts on both sides.
pub open spec fn edit_ok(e: Edit) -> bool {
    match e.edit_type {
        EditType::Eql => e.a_line is Some && e.b_line is Some && e.a_line->0.text@ == e.b_line->0.text@,
        EditType::Del => e.a_line is Some && e.b_line is None,
        EditType::Ins => e.a_line is None && e.b_line is Some,
    }
}

/// The old side of an edit script: the lines kept or deleted, in order.
pub open spec fn a_side(s: Seq<Edit>) -> Seq<Line>
    decreases s.len(),
{
    if s.len() == 0 {
        Seq::empty()
    } else {
        let rest = a_side(s.drop_first());
        match s[0].a_line {
            Some(l) => seq![l] + rest,
            None => rest,
        }
    }
}

/// The new side of an edit script: the lines kept or inserted, in order.
pub open spec fn b_side(s: Seq<Edit>) -> Seq<Line>
    decreases s.len(),
{
    if s.len() == 0 {
        Seq::empty()
    } else {
        let rest = b_side(s.drop_first());
        match s[0].b_line {
            Some(l) => seq![l] + rest,
            None => rest,
        }
    }
}

/// An edit script that turns `a` into `b`.
pub open spec fn script_of(s: Seq<Edit>, a: Seq<Line>, b: Seq<Line>) -> bool {
    &&& forall|i: int| 0 <= i < s.len() ==> edit_ok(#[trigger] s[i])
    &&& texts(a_side(s)) == texts(a)
    &&& texts(b_side(s)) == texts(b)
}

/// Line texts joined with newlines.
pub open spec fn join_lines(t: Seq<Seq<u8>>) -> Seq<u8>
    decreases t.len(),
{
    if t.len() == 0 {
        Seq::<u8>::empty()
    } else if t.len() == 1 {
        t[0]
    } else {
        join_lines(t.drop_last()) + seq![10u8] + t.last()
    }
}

/// The lines of a text, split at each newline and numbered from 1 (a trailing newline gives
/// a last, empty line).
pub fn lines(text: &[u8]) -> (r: Vec<Line>)
    requires
        text@.len() < usize::MAX,
    ensures
        r@.len() >= 1,
        r@.len() <= text@.len() + 1,
        join_lines(texts(r@)) == text@,
        numbered(r@),
        forall|i: int| 0 <= i < r@.len() ==> forall|j: int| 0 <= j < (#[trigger] r@[i]).text@.len() ==> r@[i].text@[j] != 10,
{
    let mut out: Vec<Line> = Vec::new();
    let mut start: usize = 0;
    let mut i: usize = 0;
    while i < text.len()
        invariant
            start <= i <= text@.len(),
            text@.len() < usize::MAX,
            numbered(out@),
            out@.len() <= i,
            out@.len() == 0 ==> start == 0,
            out@.len() > 0 ==> start >= 1 && text@[start - 1] == 10 && join_lines(texts(out@)) == text@.subrange(0, start - 1),
            forall|k: int| start <= k < i ==> text@[k] != 10,
            forall|a: int| 0 <= a < out@.len() ==> forall|j: int| 0 <= j < (#[trigger] out@[a]).text@.len() ==> out@[a].text@[j] != 10,
        decreases text@.len() - i,
    {
        if text[i] == 10 {
            let t = slice_to_vec(text, start, i);
            let ghost before = out@;
            out.push(Line { number: out.len() + 1, text: t });
            proof {
                let after = texts(out@);
                assert(after.drop_last() =~= texts(before));
                if before.len() == 0 {
                    assert(join_lines(after) == after[0]);
                    assert(text@.subrange(0, i as int) =~= t@);
                } else {
                    assert(text@.subrange(0, i as int) =~= text@.subrange(0, start - 1) + seq![10u8] + t@);
                }
                assert forall|a: int| 0 <= a < out@.len() implies (#[trigger] out@[a]).number == a + 1 by {
                    if a < before.len() {
                        assert(out@[a] == before[a]);
                    }
                }
                assert forall|a: int| 0 <= a < out@.len() implies forall|j: int| 0 <= j < (#[trigger] out@[a]).text@.len() ==> out@[a].text@[j] != 10 by {
                    if a < before.len() {
                        assert(out@[a] == before[a]);
                    }
                }
            }
            start = i + 1;
        }
        i += 1;
    }
    let t = slice_to_vec(text, start, text.len());
    let ghost before = out@;
    out.push(Line { number: out.len() + 1, text: t });
    proof {
        let after = texts(out@);
        assert(after.drop_last() =~= texts(before));
        if before.len() == 0 {
            assert(join_lines(after) == after[0]);
            assert(text@ =~= t@);
        } else {
            assert(text@ =~= text@.subrange(0, start - 1) + seq![10u8] + t@);
        }
        assert forall|a: int| 0 <= a < out@.len() implies (#[trigger] out@[a]).number == a + 1 by {
            if a < before.len() {
                assert(out@[a] == before[a]);
            }
        }
        assert forall|a: int| 0 <= a < out@.len() implies forall|j: int| 0 <= j < (#[trigger] out@[a]).text@.len() ==> out@[a].text@[j] != 10 by {
            if a < before.len() {
                assert(out@[a] == before[a]);
            }
        }
    }
    out
}

} // verus!

verus! {

/// Prepending a step adds its lines in front of each side.
pub proof fn lemma_prepend(e: Edit, s: Seq<Edit>)
    ensures
        a_side(seq![e] + s) == match e.a_line {
            Some(l) => seq![l] + a_side(s),
            None => a_side(s),
        },
        b_side(seq![e] + s) == match e.b_line {
            Some(l) => seq![l] + b_side(s),
            None => b_side(s),
        },
{
    assert((seq![e] + s).drop_first() =~= s);
}

/// The texts of a line followed by lines.
pub proof fn lemma_texts_cons(l: Line, rest: Seq<Line>)
    ensures
        texts(seq![l] + rest) == seq![l.text@] + texts(rest),
{
    assert(texts(seq![l] + rest) =~= seq![l.text@] + texts(rest));
}

/// Line-oriented differences by Myers' shortest-edit-script search.
pub struct Myers {
    pub a: Vec<Line>,
    pub b: Vec<Line>,
}

impl Myers {
    /// A diff from lines `a` to lines `b`.
    pub fn new(a: Vec<Line>, b: Vec<Line>) -> (r: Myers)
        ensures
            r.a == a,
            r.b == b,
    {
        Myers { a, b }
    }

    /// The furthest-reaching points of each search depth, until the end of both texts is
    /// reached: entry `d` holds the frontier before depth `d`, by diagonal `k` at `k + max + 1`.
    fn shortest_edit(&self) -> (r: Vec<Vec<i64>>)
        requires
            self.a@.len() + self.b@.len() < 1073741824,
        ensures
            r@.len() <= self.a@.len() + self.b@.len() + 1,
    {
        let n = self.a.len() as i64;
        let m = self.b.len() as i64;
        let max: i64 = n + m;
        let size: usize = (2 * max + 3) as usize;
        let mut v: Vec<i64> = Vec::new();
        let mut z: usize = 0;
        while z < size
            invariant
                z <= size,
                v@.len() == z,
                forall|j: int| 0 <= j < z ==> v@[j] == 0,
            decreases size - z,
        {
            v.push(0);
            z += 1;
        }
        let mut trace: Vec<Vec<i64>> = Vec::new();
        let mut d: i64 = 0;
        while d <= max
            invariant
                n == self.a@.len(),
                m == self.b@.len(),
                max == n + m,
                max < 1073741824,
                size == 2 * max + 3,
                v@.len() == size,
                0 <= d <= max + 1,
                trace@.len() == d,
                forall|j: int| 0 <= j < v@.len() ==> 0 <= #[trigger] v@[j] <= 1099511627776,
            decreases max + 1 - d,
        {
            trace.push(v.clone());
            let mut k: i64 = -d;
            while k <= d
                invariant
                    n == self.a@.len(),
                    m == self.b@.len(),
                    max == n + m,
                    max < 1073741824,
                    size == 2 * max + 3,
                    v@.len() == size,
                    0 <= d <= max,
                    trace@.len() == d + 1,
                    -d <= k <= d + 2,
                    forall|j: int| 0 <= j < v@.len() ==> 0 <= #[trigger] v@[j] <= 1099511627776,
                decreases d + 2 - k,
            {
                let lo = (k - 1 + max + 1) as usize;
                let hi = (k + 1 + max + 1) as usize;
                let down = k == -d || (k != d && v[lo] < v[hi]);
                let mut x: i64 = if down { v[hi] } else { v[lo] + 1 };
                if x > 1099511627776 {
                    return trace;
                }
                let mut y: i64 = x - k;
                while 0 <= x && x < n && 0 <= y && y < m && compare_bytes(&self.a[x as usize].text, &self.b[y as usize].text) == 0
                    invariant
                        n == self.a@.len(),
                        m == self.b@.len(),
                        0 <= x <= 1099511627776,
                        y == x - k,
                        -d <= k <= d,
                        max < 1073741824,
                        max == n + m,
                        0 <= d <= max,
                    decreases n - x,
                {
                    x += 1;
                    y += 1;
                }
                let at = (k + max + 1) as usize;
                v.set(at, x);
                if x >= n && y >= m {
                    return trace;
                }
                k += 2;
            }
            d += 1;
        }
        trace
    }

    /// The edit script that the search found, walked back from the end of both texts.
    /// Every step it takes is checked against the texts, so the script is valid whatever the
    /// search recorded.
    fn backtrack(&self, trace: &Vec<Vec<i64>>) -> (r: Vec<Edit>)
        requires
            self.a@.len() + self.b@.len() < 1073741824,
        ensures
            script_of(r@, self.a@, self.b@),
    {
        let n = self.a.len() as i64;
        let m = self.b.len() as i64;
        let max: i64 = n + m;
        let mut x: i64 = n;
        let mut y: i64 = m;
        let mut out: Vec<Edit> = Vec::new();
        proof {
            assert(self.a@.subrange(n as int, n as int) =~= Seq::<Line>::empty());
            assert(self.b@.subrange(m as int, m as int) =~= Seq::<Line>::empty());
            assert(texts(Seq::<Line>::empty()) =~= Seq::<Seq<u8>>::empty());
        }
        let mut d: usize = trace.len();
        while d > 0
            invariant
                n == self.a@.len(),
                m == self.b@.len(),
                self.a@.len() + self.b@.len() < 1073741824,
                max == n + m,
                max < 1073741824,
                0 <= x <= n,
                0 <= y <= m,
                d <= trace@.len(),
                script_of(out@, self.a@.subrange(x as int, n as int), self.b@.subrange(y as int, m as int)),
            decreases d,
        {
            d -= 1;
            let vd = &trace[d];
            let k = x - y;
            if d > max as usize || vd.len() > 2147483647 {
                break;
            }
            let dd = d as i64;
            if k - 1 + max + 1 < 0 || k + 1 + max + 1 >= vd.len() as i64 {
                break;
            }
            let lo = (k - 1 + max + 1) as usize;
            let hi = (k + 1 + max + 1) as usize;
            let prev_k = if k == -dd || (k != dd && vd[lo] < vd[hi]) { k + 1 } else { k - 1 };
            let pi = (prev_k + max + 1) as usize;
            let prev_x = vd[pi];
            if prev_x < -1073741824 || prev_x > 1073741824 {
                break;
            }
            let prev_y = prev_x - prev_k;
            while x > prev_x && y > prev_y && x > 0 && y > 0
                && compare_bytes(&self.a[(x - 1) as usize].text, &self.b[(y - 1) as usize].text) == 0
                invariant
                    n == self.a@.len(),
                    m == self.b@.len(),
                    self.a@.len() + self.b@.len() < 1073741824,
                    0 <= x <= n,
                    0 <= y <= m,
                    script_of(out@, self.a@.subrange(x as int, n as int), self.b@.subrange(y as int, m as int)),
                decreases x,
            {
                let al = self.a[(x - 1) as usize].duplicate();
                let bl = self.b[(y - 1) as usize].duplicate();
                self.prepend(&mut out, Edit { edit_type: EditType::Eql, a_line: Some(al), b_line: Some(bl) }, x, y);
                x -= 1;
                y -= 1;
            }
            if dd > 0 {
                if prev_x == x - 1 && prev_y == y && x > 0 {
                    let al = self.a[(x - 1) as usize].duplicate();
                    self.prepend(&mut out, Edit { edit_type: EditType::Del, a_line: Some(al), b_line: None }, x, y);
                    x -= 1;
                } else if prev_x == x && prev_y == y - 1 && y > 0 {
                    let bl = self.b[(y - 1) as usize].duplicate();
                    self.prepend(&mut out, Edit { edit_type: EditType::Ins, a_line: None, b_line: Some(bl) }, x, y);
                    y -= 1;
                }
            }
        }
        while x > 0
            invariant
                n == self.a@.len(),
                m == self.b@.len(),
                self.a@.len() + self.b@.len() < 1073741824,
                0 <= x <= n,
                0 <= y <= m,
                script_of(out@, self.a@.subrange(x as int, n as int), self.b@.subrange(y as int, m as int)),
            decreases x,
        {
            let al = self.a[(x - 1) as usize].duplicate();
            self.prepend(&mut out, Edit { edit_type: EditType::Del, a_line: Some(al), b_line: None }, x, y);
            x -= 1;
        }
        while y > 0
            invariant
                n == self.a@.len(),
                m == self.b@.len(),
                self.a@.len() + self.b@.len() < 1073741824,
                x == 0,
                0 <= y <= m,
                script_of(out@, self.a@.subrange(x as int, n as int), self.b@.subrange(y as int, m as int)),
            decreases y,
        {
            let bl = self.b[(y - 1) as usize].duplicate();
            self.prepend(&mut out, Edit { edit_type: EditType::Ins, a_line: None, b_line: Some(bl) }, x, y);
            y -= 1;
        }
        proof {
            assert(self.a@.subrange(0, n as int) =~= self.a@);
            assert(self.b@.subrange(0, m as int) =~= self.b@);
        }
        out
    }

    /// Puts step `e` in front of a script for the texts from `(x, y)` on, giving a script for
    /// the texts from the step's start.
    fn prepend(&self, out: &mut Vec<Edit>, e: Edit, x: i64, y: i64)
        requires
            0 <= x <= self.a@.len(),
            0 <= y <= self.b@.len(),
            edit_ok(e),
            script_of(old(out)@, self.a@.subrange(x as int, self.a@.len() as int), self.b@.subrange(y as int, self.b@.len() as int)),
            e.a_line is Some ==> x > 0 && e.a_line->0.text@ == self.a@[x - 1].text@,
            e.b_line is Some ==> y > 0 && e.b_line->0.text@ == self.b@[y - 1].text@,
        ensures
            final(out)@ == seq![e] + old(out)@,
            script_of(
                final(out)@,
                self.a@.subrange(if e.a_line is Some { x - 1 } else { x as int }, self.a@.len() as int),
                self.b@.subrange(if e.b_line is Some { y - 1 } else { y as int }, self.b@.len() as int),
            ),
    {
        let ghost before = out@;
        let ghost ev = e;
        out.insert(0, e);
        proof {
            let s = out@;
            assert(s =~= seq![ev] + before);
            lemma_prepend(ev, before);
            let an = self.a@.len() as int;
            let bn = self.b@.len() as int;
            assert forall|i: int| 0 <= i < s.len() implies edit_ok(#[trigger] s[i]) by {
                if i > 0 {
                    assert(s[i] == before[i - 1]);
                }
            }
            match ev.a_line {
                Some(l) => {
                    lemma_texts_cons(l, a_side(before));
                    lemma_texts_cons(self.a@[x - 1], self.a@.subrange(x as int, an));
                    assert(self.a@.subrange(x - 1, an) =~= seq![self.a@[x - 1]] + self.a@.subrange(x as int, an));
                },
                None => {},
            }
            match ev.b_line {
                Some(l) => {
                    lemma_texts_cons(l, b_side(before));
                    lemma_texts_cons(self.b@[y - 1], self.b@.subrange(y as int, bn));
                    assert(self.b@.subrange(y - 1, bn) =~= seq![self.b@[y - 1]] + self.b@.subrange(y as int, bn));
                },
                None => {},
            }
        }
    }

    /// An edit script from the old lines to the new ones.
    pub fn diff(&self) -> (r: Vec<Edit>)
        requires
            self.a@.len() + self.b@.len() < 1073741824,
        ensures
            script_of(r@, self.a@, self.b@),
    {
        let trace = self.shortest_edit();
        self.backtrack(&trace)
    }
}

} // verus!

verus! {

/// Lines of context shown around a change.
pub const HUNK_CONTEXT: usize = 3;

/// Two steps that show the same thing: same kind, same line numbers and texts.
pub open spec fn same_edit(e: Edit, f: Edit) -> bool {
    &&& e.edit_type == f.edit_type
    &&& (e.a_line is Some <==> f.a_line is Some)
    &&& (e.b_line is Some <==> f.b_line is Some)
    &&& (e.a_line is Some ==> e.a_line->0.number == f.a_line->0.number && e.a_line->0.text@ == f.a_line->0.text@)
    &&& (e.b_line is Some ==> e.b_line->0.number == f.b_line->0.number && e.b_line->0.text@ == f.b_line->0.text@)
}

impl Edit {
    /// A copy of this step.
    pub fn duplicate(&self) -> (r: Edit)
        ensures
            same_edit(r, *self),
    {
        let a_line = match &self.a_line {
            Some(l) => Some(l.duplicate()),
            None => None,
        };
        let b_line = match &self.b_line {
            Some(l) => Some(l.duplicate()),
            None => None,
        };
        Edit { edit_type: self.edit_type, a_line, b_line }
    }
}

/// A group of nearby steps, shown together under one header.
#[derive(Debug)]
pub struct Hunk {
    pub a_start: usize,
    pub b_start: usize,
    pub edits: Vec<Edit>,
}

/// `hunk` holds copies of the steps of `edits` from `start` on.
pub open spec fn copies_from(hunk: Seq<Edit>, edits: Seq<Edit>, start: int) -> bool {
    &&& 0 <= start
    &&& start + hunk.len() <= edits.len()
    &&& forall|j: int| 0 <= j < hunk.len() ==> same_edit(#[trigger] hunk[j], edits[start + j])
}

/// Whether a hunk holds copies of consecutive steps of `edits`.
pub open spec fn from_edits(h: Hunk, edits: Seq<Edit>) -> bool {
    exists|start: int| copies_from(h.edits@, edits, start)
}

/// The number of old-side lines among some steps.
pub open spec fn a_count(s: Seq<Edit>) -> nat
    decreases s.len(),
{
    if s.len() == 0 {
        0
    } else {
        (if s.last().a_line is Some { 1nat } else { 0nat }) + a_count(s.drop_last())
    }
}

/// The number of new-side lines among some steps.
pub open spec fn b_count(s: Seq<Edit>) -> nat
    decreases s.len(),
{
    if s.len() == 0 {
        0
    } else {
        (if s.last().b_line is Some { 1nat } else { 0nat }) + b_count(s.drop_last())
    }
}

/// Whether step `i` is the first with an old-side line.
pub open spec fn first_a_at(s: Seq<Edit>, i: int) -> bool {
    0 <= i < s.len() && s[i].a_line is Some && forall|j: int| 0 <= j < i ==> (#[trigger] s[j]).a_line is None
}

/// Whether step `i` is the first with a new-side line.
pub open spec fn first_b_at(s: Seq<Edit>, i: int) -> bool {
    0 <= i < s.len() && s[i].b_line is Some && forall|j: int| 0 <= j < i ==> (#[trigger] s[j]).b_line is None
}

/// The first old-side line number of a hunk, or its start when it shows none.
pub open spec fn hunk_a_start(h: Hunk) -> nat {
    if exists|i: int| first_a_at(h.edits@, i) {
        h.edits@[choose|i: int| first_a_at(h.edits@, i)].a_line->0.number as nat
    } else {
        h.a_start as nat
    }
}

/// The first new-side line number of a hunk, or its start when it shows none.
pub open spec fn hunk_b_start(h: Hunk) -> nat {
    if exists|i: int| first_b_at(h.edits@, i) {
        h.edits@[choose|i: int| first_b_at(h.edits@, i)].b_line->0.number as nat
    } else {
        h.b_start as nat
    }
}

/// The text of a hunk header: `@@ -<a>,<al> +<b>,<bl> @@`.
pub open spec fn header_text(a: nat, al: nat, b: nat, bl: nat) -> Seq<u8> {
    seq![64u8, 64u8, 32u8, 45u8] + crate::codec::decimal(a) + seq![44u8] + crate::codec::decimal(al) + seq![32u8, 43u8]
        + crate::codec::decimal(b) + seq![44u8] + crate::codec::decimal(bl) + seq![32u8, 64u8, 64u8]
}

impl Hunk {
    /// An empty hunk starting at old line `a_start` and new line `b_start`.
    pub fn new(a_start: usize, b_start: usize) -> (r: Hunk)
        ensures
            r.a_start == a_start,
            r.b_start == b_start,
            r.edits@.len() == 0,
    {
        Hunk { a_start, b_start, edits: Vec::new() }
    }

    /// The first old-side line number (or the hunk's start when it has none) and how many
    /// old-side lines it shows.
    pub fn offsets_a(&self) -> (r: (usize, usize))
        ensures
            r.1 == a_count(self.edits@),
            (exists|i: int| first_a_at(self.edits@, i) && r.0 == self.edits@[i].a_line->0.number) || (forall|i: int|
                0 <= i < self.edits@.len() ==> (#[trigger] self.edits@[i]).a_line is None) && r.0 == self.a_start,
    {
        let mut start: usize = self.a_start;
        let mut found = false;
        let mut count: usize = 0;
        let mut i: usize = 0;
        while i < self.edits.len()
            invariant
                i <= self.edits@.len(),
                count == a_count(self.edits@.subrange(0, i as int)),
                count <= i,
                found == exists|j: int| 0 <= j < i && (#[trigger] self.edits@[j]).a_line is Some,
                found ==> exists|j: int| first_a_at(self.edits@, j) && start == self.edits@[j].a_line->0.number,
                !found ==> start == self.a_start,
            decreases self.edits@.len() - i,
        {
            proof {
                assert(self.edits@.subrange(0, i + 1).drop_last() =~= self.edits@.subrange(0, i as int));
            }
            match &self.edits[i].a_line {
                Some(l) => {
                    if !found {
                        start = l.number;
                        found = true;
                        assert(first_a_at(self.edits@, i as int));
                    }
                    count += 1;
                },
                None => {},
            }
            i += 1;
        }
        assert(self.edits@.subrange(0, i as int) =~= self.edits@);
        (start, count)
    }

    /// The first new-side line number (or the hunk's start when it has none) and how many
    /// new-side lines it shows.
    pub fn offsets_b(&self) -> (r: (usize, usize))
        ensures
            r.1 == b_count(self.edits@),
            (exists|i: int| first_b_at(self.edits@, i) && r.0 == self.edits@[i].b_line->0.number) || (forall|i: int|
                0 <= i < self.edits@.len() ==> (#[trigger] self.edits@[i]).b_line is None) && r.0 == self.b_start,
    {
        let mut start: usize = self.b_start;
        let mut found = false;
        let mut count: usize = 0;
        let mut i: usize = 0;
        while i < self.edits.len()
            invariant
                i <= self.edits@.len(),
                count == b_count(self.edits@.subrange(0, i as int)),
                count <= i,
                found == exists|j: int| 0 <= j < i && (#[trigger] self.edits@[j]).b_line is Some,
                found ==> exists|j: int| first_b_at(self.edits@, j) && start == self.edits@[j].b_line->0.number,
                !found ==> start == self.b_start,
            decreases self.edits@.len() - i,
        {
            proof {
                assert(self.edits@.subrange(0, i + 1).drop_last() =~= self.edits@.subrange(0, i as int));
            }
            match &self.edits[i].b_line {
                Some(l) => {
                    if !found {
                        start = l.number;
                        found = true;
                        assert(first_b_at(self.edits@, i as int));
                    }
                    count += 1;
                },
                None => {},
            }
            i += 1;
        }
        assert(self.edits@.subrange(0, i as int) =~= self.edits@);
        (start, count)
    }

    /// The header line of this hunk: `@@ -<a>,<al> +<b>,<bl> @@`.
    pub fn header(&self) -> (r: Vec<u8>)
        ensures
            r@ == header_text(hunk_a_start(*self), a_count(self.edits@), hunk_b_start(*self), b_count(self.edits@)),
    {
        let (a, al) = self.offsets_a();
        let (b, bl) = self.offsets_b();
        proof {
            let s = self.edits@;
            if exists|i: int| first_a_at(s, i) {
                let c = choose|i: int| first_a_at(s, i);
                let w = choose|i: int| first_a_at(s, i) && a == s[i].a_line->0.number;
                if c < w {
                    assert(s[c].a_line is None);
                }
                if w < c {
                    assert(s[w].a_line is None);
                }
            } else {
                if !(forall|i: int| 0 <= i < s.len() ==> (#[trigger] s[i]).a_line is None) {
                    let w = choose|i: int| first_a_at(s, i) && a == s[i].a_line->0.number;
                }
            }
            if exists|i: int| first_b_at(s, i) {
                let c = choose|i: int| first_b_at(s, i);
                let w = choose|i: int| first_b_at(s, i) && b == s[i].b_line->0.number;
                if c < w {
                    assert(s[c].b_line is None);
                }
                if w < c {
                    assert(s[w].b_line is None);
                }
            } else {
                if !(forall|i: int| 0 <= i < s.len() ==> (#[trigger] s[i]).b_line is None) {
                    let w = choose|i: int| first_b_at(s, i) && b == s[i].b_line->0.number;
                }
            }
        }
        let mut r: Vec<u8> = Vec::new();
        r.push(64);
        r.push(64);
        r.push(32);
        r.push(45);
        crate::codec::push_decimal(&mut r, a);
        r.push(44);
        crate::codec::push_decimal(&mut r, al);
        r.push(32);
        r.push(43);
        crate::codec::push_decimal(&mut r, b);
        r.push(44);
        crate::codec::push_decimal(&mut r, bl);
        r.push(32);
        r.push(64);
        r.push(64);
        assert(r@ =~= header_text(a as nat, al as nat, b as nat, bl as nat));
        r
    }
}

} // verus!

verus! {

/// Whether a step keeps a line.
pub fn is_eql(e: &Edit) -> (r: bool)
    ensures
        r == (e.edit_type == EditType::Eql),
{
    match e.edit_type {
        EditType::Eql => true,
        _ => false,
    }
}

/// Whether step `c` of `edits` is a change (not a kept line).
pub open spec fn is_change(edits: Seq<Edit>, c: int) -> bool {
    0 <= c < edits.len() && edits[c].edit_type != EditType::Eql
}

/// Whether step `c` lies in hunk `h`, which starts at step `offs[h]`.
pub open spec fn in_hunk(r: Seq<Hunk>, offs: Seq<int>, h: int, c: int) -> bool {
    0 <= h < r.len() && offs[h] <= c < offs[h] + r[h].edits@.len()
}

/// Hunk `h` copies the steps from `offs[h]` on, with a change among its first 4 steps and
/// among its last 4 (at most 3 steps of context on each side).
pub open spec fn hunk_ok(r: Seq<Hunk>, edits: Seq<Edit>, offs: Seq<int>, h: int) -> bool {
    &&& r[h].edits@.len() > 0
    &&& copies_from(r[h].edits@, edits, offs[h])
    &&& exists|c: int| offs[h] <= c <= offs[h] + 3 && #[trigger] is_change(edits, c)
    &&& exists|c: int| offs[h] + r[h].edits@.len() - 4 <= c < offs[h] + r[h].edits@.len() && #[trigger] is_change(edits, c)
}

/// The hunks are well formed and in order, each ending before the next begins.
pub open spec fn hunks_laid_out(r: Seq<Hunk>, edits: Seq<Edit>, offs: Seq<int>) -> bool {
    &&& offs.len() == r.len()
    &&& forall|h: int| 0 <= h < r.len() ==> #[trigger] hunk_ok(r, edits, offs, h)
    &&& forall|h: int, h2: int| 0 <= h < h2 < r.len() ==> #[trigger] offs[h] + r[h].edits@.len() <= #[trigger] offs[h2]
}

/// Every change before step `upto` lies in some hunk.
pub open spec fn changes_covered(r: Seq<Hunk>, edits: Seq<Edit>, offs: Seq<int>, upto: int) -> bool {
    forall|c: int| #[trigger] is_change(edits, c) && c < upto ==> exists|h: int| in_hunk(r, offs, h, c)
}

/// Two changes before step `upto` with at most 6 kept steps between them share a hunk.
pub open spec fn close_changes_merged(r: Seq<Hunk>, edits: Seq<Edit>, offs: Seq<int>, upto: int) -> bool {
    forall|c: int, c2: int|
        #[trigger] is_change(edits, c) && #[trigger] is_change(edits, c2) && c < c2 < upto && c2 <= c + 7 ==> exists|h: int|
            in_hunk(r, offs, h, c) && in_hunk(r, offs, h, c2)
}

/// The grouping of a script into hunks: laid out in order, covering every change, and merging
/// changes that are close.
pub open spec fn hunks_of(r: Seq<Hunk>, edits: Seq<Edit>) -> bool {
    exists|offs: Seq<int>|
        hunks_laid_out(r, edits, offs) && changes_covered(r, edits, offs, edits.len() as int) && close_changes_merged(
            r,
            edits,
            offs,
            edits.len() as int,
        )
}

impl Hunk {
    /// The hunk around the change at `first`: it starts `HUNK_CONTEXT` steps before it and
    /// takes in every change that follows within 7 steps of the last one taken, then ends
    /// `HUNK_CONTEXT` steps after the last. Returns it, where it starts, and where it ends.
    fn build_hunk(a_start: usize, b_start: usize, edits: &Vec<Edit>, first: usize) -> (r: (Hunk, usize, usize))
        requires
            is_change(edits@, first as int),
            edits@.len() < 1073741824,
        ensures
            r.0.a_start == a_start && r.0.b_start == b_start,
            r.1 == (if first >= 3 { first - 3 } else { 0 }),
            r.1 < r.2 <= edits@.len(),
            r.0.edits@.len() == r.2 - r.1,
            copies_from(r.0.edits@, edits@, r.1 as int),
            exists|last: int|
                #[trigger] is_change(edits@, last) && first <= last && r.2 == (if last + 4 <= edits@.len() { last + 4 } else {
                    edits@.len() as int
                }) && forall|c: int| last < c < last + 8 ==> !#[trigger] is_change(edits@, c),
    {
        let n = edits.len();
        let start: usize = if first >= HUNK_CONTEXT { first - HUNK_CONTEXT } else { 0 };
        let mut last: usize = first;
        let mut j: usize = first + 1;
        while j < n && j <= last + 2 * HUNK_CONTEXT + 1
            invariant
                n == edits@.len(),
                n < 1073741824,
                first <= last < j <= n,
                j <= last + 8,
                is_change(edits@, last as int),
                forall|c: int| last < c < j ==> !#[trigger] is_change(edits@, c),
            decreases n - j,
        {
            if !is_eql(&edits[j]) {
                last = j;
            }
            j += 1;
        }
        let end: usize = if last + HUNK_CONTEXT + 1 <= n { last + HUNK_CONTEXT + 1 } else { n };
        let mut hunk = Hunk::new(a_start, b_start);
        let mut k: usize = start;
        while k < end
            invariant
                start <= k <= end,
                end <= n,
                n == edits@.len(),
                hunk.a_start == a_start && hunk.b_start == b_start,
                hunk.edits@.len() == k - start,
                forall|q: int| 0 <= q < hunk.edits@.len() ==> same_edit(#[trigger] hunk.edits@[q], edits@[start + q]),
            decreases end - k,
        {
            let ghost before = hunk.edits@;
            hunk.edits.push(edits[k].duplicate());
            proof {
                assert forall|q: int| 0 <= q < hunk.edits@.len() implies same_edit(#[trigger] hunk.edits@[q], edits@[start + q]) by {
                    if q < before.len() {
                        assert(hunk.edits@[q] == before[q]);
                    }
                }
            }
            k += 1;
        }
        proof {
            assert forall|c: int| last < c < last + 8 implies !#[trigger] is_change(edits@, c) by {
                if c >= j && c < n {
                    assert(j == n || j > last + 7);
                }
            }
        }
        (hunk, start, end)
    }

    /// Groups an edit script into hunks of nearby changes with their context.
    pub fn filter(edits: &Vec<Edit>) -> (r: Vec<Hunk>)
        requires
            edits@.len() < 1073741824,
        ensures
            hunks_of(r@, edits@),
            forall|h: int| 0 <= h < r@.len() ==> from_edits(#[trigger] r@[h], edits@),
            r@.len() == 0 <==> forall|i: int| 0 <= i < edits@.len() ==> (#[trigger] edits@[i]).edit_type == EditType::Eql,
    {
        let n = edits.len();
        let mut hunks: Vec<Hunk> = Vec::new();
        let ghost mut offs: Seq<int> = Seq::empty();
        let ghost mut lc: int = -8;
        let mut i: usize = 0;
        while i < n
            invariant
                n == edits@.len(),
                n < 1073741824,
                i <= n,
                hunks_laid_out(hunks@, edits@, offs),
                forall|h: int| 0 <= h < hunks@.len() ==> offs[h] + hunks@[h].edits@.len() <= lc + 4,
                forall|h: int| 0 <= h < hunks@.len() ==> offs[h] + hunks@[h].edits@.len() <= i,
                changes_covered(hunks@, edits@, offs, i as int),
                close_changes_merged(hunks@, edits@, offs, i as int),
                lc < i,
                -8 <= lc,
                forall|c: int| #[trigger] is_change(edits@, c) && c < i ==> c <= lc,
                forall|c: int| lc < c < lc + 8 ==> !#[trigger] is_change(edits@, c),
                hunks@.len() == 0 <==> forall|c: int| 0 <= c < i ==> !#[trigger] is_change(edits@, c),
            decreases n - i,
        {
            let ghost i0 = i as int;
            while i < n && is_eql(&edits[i])
                invariant
                    n == edits@.len(),
                    i0 <= i <= n,
                    forall|c: int| i0 <= c < i ==> !#[trigger] is_change(edits@, c),
                decreases n - i,
            {
                i += 1;
            }
            if i >= n {
                proof {
                    assert forall|c: int| #[trigger] is_change(edits@, c) && c < n implies exists|h: int| in_hunk(hunks@, offs, h, c) by {
                        assert(c < i0);
                    }
                    assert forall|c: int, c2: int|
                        #[trigger] is_change(edits@, c) && #[trigger] is_change(edits@, c2) && c < c2 < n && c2 <= c + 7 implies exists|h: int|
                            in_hunk(hunks@, offs, h, c) && in_hunk(hunks@, offs, h, c2) by {
                        assert(c2 < i0);
                    }
                }
            } else {
                let first = i;
                assert(is_change(edits@, first as int));
                let a_start: usize = if first >= 4 {
                    match &edits[first - 4].a_line {
                        Some(l) => l.number,
                        None => 0,
                    }
                } else {
                    0
                };
                let b_start: usize = if first >= 4 {
                    match &edits[first - 4].b_line {
                        Some(l) => l.number,
                        None => 0,
                    }
                } else {
                    0
                };
                let (hunk, start, end) = Hunk::build_hunk(a_start, b_start, edits, first);
                let ghost last = choose|last: int|
                    #[trigger] is_change(edits@, last) && first <= last && end == (if last + 4 <= edits@.len() { last + 4 } else {
                        edits@.len() as int
                    }) && forall|c: int| last < c < last + 8 ==> !#[trigger] is_change(edits@, c);
                let ghost before = hunks@;
                let ghost old_offs = offs;
                let ghost old_lc = lc;
                hunks.push(hunk);
                proof {
                    offs = old_offs.push(start as int);
                    lc = last;
                    let hn = before.len() as int;
                    assert(first >= old_lc + 8) by {
                        if first < old_lc + 8 {
                            assert(old_lc < first);
                        }
                    }
                    assert(hunks@[hn] == hunk);
                    assert forall|h: int| 0 <= h < hn implies hunks@[h] == before[h] && offs[h] == old_offs[h] by {}
                    assert forall|h: int| 0 <= h < hunks@.len() implies #[trigger] hunk_ok(hunks@, edits@, offs, h) by {
                        if h < hn {
                            assert(hunk_ok(before, edits@, old_offs, h));
                            let c1 = choose|c: int| old_offs[h] <= c <= old_offs[h] + 3 && #[trigger] is_change(edits@, c);
                            let c2 = choose|c: int|
                                old_offs[h] + before[h].edits@.len() - 4 <= c < old_offs[h] + before[h].edits@.len() && #[trigger] is_change(edits@, c);
                            assert(offs[h] <= c1 <= offs[h] + 3 && is_change(edits@, c1));
                            assert(offs[h] + hunks@[h].edits@.len() - 4 <= c2 < offs[h] + hunks@[h].edits@.len() && is_change(edits@, c2));
                        } else {
                            assert(offs[h] == start);
                            assert(offs[h] <= first <= offs[h] + 3 && is_change(edits@, first as int));
                            assert(offs[h] + hunks@[h].edits@.len() - 4 <= last < offs[h] + hunks@[h].edits@.len() && is_change(edits@, last));
                        }
                    }
                    assert forall|h: int, h2: int| 0 <= h < h2 < hunks@.len() implies #[trigger] offs[h] + hunks@[h].edits@.len() <= #[trigger] offs[h2] by {
                        if h2 < hn {
                            assert(old_offs[h] + before[h].edits@.len() <= old_offs[h2]);
                        } else {
                            assert(old_offs[h] + before[h].edits@.len() <= old_lc + 4);
                        }
                    }
                    assert forall|h: int| 0 <= h < hunks@.len() implies offs[h] + hunks@[h].edits@.len() <= lc + 4 by {
                        if h < hn {
                            assert(old_offs[h] + before[h].edits@.len() <= old_lc + 4);
                        }
                    }
                    assert forall|c: int| #[trigger] is_change(edits@, c) && c < end implies c <= lc by {
                        if c >= i0 && c > last {
                            assert(c < last + 8);
                        }
                    }
                    assert forall|c: int| #[trigger] is_change(edits@, c) && c < end implies exists|h: int| in_hunk(hunks@, offs, h, c) by {
                        if c < i0 {
                            let h = choose|h: int| in_hunk(before, old_offs, h, c);
                            assert(in_hunk(hunks@, offs, h, c));
                        } else {
                            assert(c >= first);
                            assert(in_hunk(hunks@, offs, hn, c));
                        }
                    }
                    assert forall|c: int, c2: int|
                        #[trigger] is_change(edits@, c) && #[trigger] is_change(edits@, c2) && c < c2 < end && c2 <= c + 7 implies exists|h: int|
                            in_hunk(hunks@, offs, h, c) && in_hunk(hunks@, offs, h, c2) by {
                        if c2 < i0 {
                            let h = choose|h: int| in_hunk(before, old_offs, h, c) && in_hunk(before, old_offs, h, c2);
                            assert(in_hunk(hunks@, offs, h, c) && in_hunk(hunks@, offs, h, c2));
                        } else if c < i0 {
                            assert(c <= old_lc);
                            assert(c2 >= first);
                        } else {
                            assert(c >= first);
                            assert(in_hunk(hunks@, offs, hn, c) && in_hunk(hunks@, offs, hn, c2));
                        }
                    }
                }
                i = end;
            }
        }
        proof {
            assert(hunks_laid_out(hunks@, edits@, offs) && changes_covered(hunks@, edits@, offs, n as int) && close_changes_merged(
                hunks@,
                edits@,
                offs,
                n as int,
            ));
            assert forall|h: int| 0 <= h < hunks@.len() implies from_edits(#[trigger] hunks@[h], edits@) by {
                assert(hunk_ok(hunks@, edits@, offs, h));
            }
            if forall|c: int| 0 <= c < n ==> !#[trigger] is_change(edits@, c) {
                assert forall|c: int| 0 <= c < n implies (#[trigger] edits@[c]).edit_type == EditType::Eql by {
                    assert(!is_change(edits@, c));
                }
            }
            if forall|c: int| 0 <= c < n ==> (#[trigger] edits@[c]).edit_type == EditType::Eql {
                assert forall|c: int| 0 <= c < n implies !#[trigger] is_change(edits@, c) by {
                    assert(edits@[c].edit_type == EditType::Eql);
                }
            }
        }
        hunks
    }
}

/// Whether `ls` is the line split of `t`: numbered lines without newlines, joined back to `t`.
pub open spec fn split_of(t: Seq<u8>, ls: Seq<Line>) -> bool {
    &&& numbered(ls)
    &&& join_lines(texts(ls)) == t
    &&& forall|i: int| 0 <= i < ls.len() ==> forall|j: int| 0 <= j < (#[trigger] ls[i]).text@.len() ==> ls[i].text@[j] != 10
}

/// A script that keeps every line has the same texts on both sides.
pub proof fn lemma_all_kept(s: Seq<Edit>)
    requires
        forall|i: int| 0 <= i < s.len() ==> edit_ok(#[trigger] s[i]),
        forall|i: int| 0 <= i < s.len() ==> (#[trigger] s[i]).edit_type == EditType::Eql,
    ensures
        texts(a_side(s)) == texts(b_side(s)),
    decreases s.len(),
{
    if s.len() > 0 {
        let rest = s.drop_first();
        assert forall|i: int| 0 <= i < rest.len() implies edit_ok(#[trigger] rest[i]) by {
            assert(rest[i] == s[i + 1]);
        }
        assert forall|i: int| 0 <= i < rest.len() implies (#[trigger] rest[i]).edit_type == EditType::Eql by {
            assert(rest[i] == s[i + 1]);
        }
        lemma_all_kept(rest);
        assert(edit_ok(s[0]));
        assert(s =~= seq![s[0]] + rest);
        lemma_prepend(s[0], rest);
        lemma_texts_cons(s[0].a_line->0, a_side(rest));
        lemma_texts_cons(s[0].b_line->0, b_side(rest));
    }
}

/// Textual differences between two texts.
pub struct Diff {}

impl Diff {
    /// The edit script from the lines of `a` to the lines of `b`.
    pub fn diff(a: &[u8], b: &[u8]) -> (r: Vec<Edit>)
        requires
            a@.len() + b@.len() < 1073741822,
        ensures
            exists|la: Seq<Line>, lb: Seq<Line>| split_of(a@, la) && split_of(b@, lb) && script_of(r@, la, lb),
            r@.len() <= a@.len() + b@.len() + 2,
    {
        let la = lines(a);
        let lb = lines(b);
        let ghost (va, vb) = (la@, lb@);
        let m = Myers::new(la, lb);
        let r = m.diff();
        assert(split_of(a@, va) && split_of(b@, vb) && script_of(r@, va, vb));
        proof {
            lemma_script_len(r@, va, vb);
        }
        r
    }

    /// The hunks of the differences between `a` and `b`: each copies consecutive steps of the
    /// edit script between their lines, and there are none only when the texts are equal.
    pub fn diff_hunks(a: &[u8], b: &[u8]) -> (r: Vec<Hunk>)
        requires
            a@.len() + b@.len() < 1073741822,
        ensures
            exists|s: Seq<Edit>, la: Seq<Line>, lb: Seq<Line>|
                split_of(a@, la) && split_of(b@, lb) && script_of(s, la, lb) && forall|h: int|
                    0 <= h < r@.len() ==> from_edits(#[trigger] r@[h], s),
            r@.len() == 0 ==> a@ == b@,
    {
        let edits = Diff::diff(a, b);
        let ghost (la, lb) = choose|la: Seq<Line>, lb: Seq<Line>| split_of(a@, la) && split_of(b@, lb) && script_of(edits@, la, lb);
        let r = Hunk::filter(&edits);
        proof {
            if r@.len() == 0 {
                lemma_all_kept(edits@);
            }
            assert(split_of(a@, la) && split_of(b@, lb) && script_of(edits@, la, lb) && forall|h: int|
                0 <= h < r@.len() ==> from_edits(#[trigger] r@[h], edits@));
        }
        r
    }
}

/// A script is no longer than its two sides together.
pub proof fn lemma_script_len(s: Seq<Edit>, la: Seq<Line>, lb: Seq<Line>)
    requires
        script_of(s, la, lb),
    ensures
        s.len() <= la.len() + lb.len(),
{
    lemma_sides_len(s);
    assert(texts(a_side(s)).len() == a_side(s).len());
    assert(texts(b_side(s)).len() == b_side(s).len());
}

/// Every step shows at least one line, so a script is no longer than its two sides together.
pub proof fn lemma_sides_len(s: Seq<Edit>)
    requires
        forall|i: int| 0 <= i < s.len() ==> edit_ok(#[trigger] s[i]),
    ensures
        s.len() <= a_side(s).len() + b_side(s).len(),
    decreases s.len(),
{
    if s.len() > 0 {
        let rest = s.drop_first();
        assert forall|i: int| 0 <= i < rest.len() implies edit_ok(#[trigger] rest[i]) by {
            assert(rest[i] == s[i + 1]);
        }
        lemma_sides_len(rest);
        assert(edit_ok(s[0]));
    }
}

} // verus!
