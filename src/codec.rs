use vstd::prelude::*;

verus! {

/// `a` is below `b` in byte-wise lexicographic order, the two agreeing on their first `i` bytes.
pub open spec fn lt_at(a: Seq<u8>, b: Seq<u8>, i: int) -> bool {
    &&& 0 <= i <= a.len()
    &&& i <= b.len()
    &&& a.subrange(0, i) == b.subrange(0, i)
    &&& ((i == a.len() && i < b.len()) || (i < a.len() && i < b.len() && a[i] < b[i]))
}

/// Byte-wise lexicographic order (a proper prefix comes first).
pub open spec fn bytes_lt(a: Seq<u8>, b: Seq<u8>) -> bool {
    exists|i: int| lt_at(a, b, i)
}

pub proof fn lemma_lt_irreflexive(a: Seq<u8>)
    ensures
        !bytes_lt(a, a),
{
}

pub proof fn lemma_lt_asymmetric(a: Seq<u8>, b: Seq<u8>)
    requires
        bytes_lt(a, b),
    ensures
        !bytes_lt(b, a),
        a != b,
{
    let i = choose|i: int| lt_at(a, b, i);
    if bytes_lt(b, a) {
        let j = choose|j: int| lt_at(b, a, j);
        if i < j {
            assert(a.subrange(0, j)[i] == b.subrange(0, j)[i]);
        } else if j < i {
            assert(a.subrange(0, i)[j] == b.subrange(0, i)[j]);
        }
    }
}

pub proof fn lemma_lt_transitive(a: Seq<u8>, b: Seq<u8>, c: Seq<u8>)
    requires
        bytes_lt(a, b),
        bytes_lt(b, c),
    ensures
        bytes_lt(a, c),
{
    let i = choose|i: int| lt_at(a, b, i);
    let j = choose|j: int| lt_at(b, c, j);
    let k = if i < j {
        i
    } else {
        j
    };
    assert(a.subrange(0, k) =~= b.subrange(0, i).subrange(0, k));
    assert(c.subrange(0, k) =~= b.subrange(0, j).subrange(0, k));
    assert(b.subrange(0, k) =~= b.subrange(0, j).subrange(0, k));
    assert(a.subrange(0, k) =~= c.subrange(0, k));
    if i < j {
        assert(b.subrange(0, j)[i] == c.subrange(0, j)[i]);
        assert(b[i] == c[i]);
    } else if j < i {
        assert(a.subrange(0, i)[j] == b.subrange(0, i)[j]);
        assert(a[j] == b[j]);
    }
    assert(lt_at(a, c, k));
}

/// Two different byte strings are ordered one way or the other.
pub proof fn lemma_lt_total(a: Seq<u8>, b: Seq<u8>)
    requires
        a != b,
    ensures
        bytes_lt(a, b) || bytes_lt(b, a),
{
    let m = if a.len() < b.len() {
        a.len() as int
    } else {
        b.len() as int
    };
    if a.subrange(0, m) == b.subrange(0, m) {
        if a.len() == b.len() {
            assert(a =~= a.subrange(0, m));
            assert(b =~= b.subrange(0, m));
        } else if a.len() < b.len() {
            assert(lt_at(a, b, m));
        } else {
            assert(lt_at(b, a, m));
        }
    } else {
        let i = choose|i: int| 0 <= i < m && a.subrange(0, m)[i] != b.subrange(0, m)[i];
        lemma_first_difference(a, b, m);
    }
}

/// Two byte strings that differ within their first `m` bytes are ordered by the first
/// position where they differ.
pub proof fn lemma_first_difference(a: Seq<u8>, b: Seq<u8>, m: int)
    requires
        0 <= m <= a.len(),
        m <= b.len(),
        a.subrange(0, m) != b.subrange(0, m),
    ensures
        bytes_lt(a, b) || bytes_lt(b, a),
    decreases m,
{
    if m == 0 {
        assert(a.subrange(0, 0) =~= b.subrange(0, 0));
    } else if a.subrange(0, m - 1) == b.subrange(0, m - 1) {
        assert(a[m - 1] != b[m - 1]) by {
            if a[m - 1] == b[m - 1] {
                assert(a.subrange(0, m) =~= a.subrange(0, m - 1).push(a[m - 1]));
                assert(b.subrange(0, m) =~= b.subrange(0, m - 1).push(b[m - 1]));
            }
        }
        if a[m - 1] < b[m - 1] {
            assert(lt_at(a, b, m - 1));
        } else {
            assert(lt_at(b, a, m - 1));
        }
    } else {
        lemma_first_difference(a, b, m - 1);
    }
}

/// Compares two byte strings: negative, zero or positive as `a` is below, equal to or above `b`.
pub fn compare_bytes(a: &[u8], b: &[u8]) -> (r: i8)
    ensures
        r < 0 <==> bytes_lt(a@, b@),
        r == 0 <==> a@ == b@,
        r > 0 <==> bytes_lt(b@, a@),
{
    let mut i: usize = 0;
    while i < a.len() && i < b.len() && a[i] == b[i]
        invariant
            i <= a@.len(),
            i <= b@.len(),
            a@.subrange(0, i as int) == b@.subrange(0, i as int),
        decreases a@.len() - i,
    {
        assert(a@.subrange(0, i + 1) =~= a@.subrange(0, i as int).push(a@[i as int]));
        assert(b@.subrange(0, i + 1) =~= b@.subrange(0, i as int).push(b@[i as int]));
        i += 1;
    }
    if i == a.len() && i == b.len() {
        assert(a@ =~= a@.subrange(0, i as int));
        assert(b@ =~= b@.subrange(0, i as int));
        proof {
            lemma_lt_irreflexive(a@);
        }
        0
    } else if i == a.len() || (i < b.len() && a[i] < b[i]) {
        assert(lt_at(a@, b@, i as int));
        proof {
            lemma_lt_asymmetric(a@, b@);
        }
        -1
    } else {
        assert(lt_at(b@, a@, i as int));
        proof {
            lemma_lt_asymmetric(b@, a@);
        }
        1
    }
}

/// Big-endian bytes of a 32-bit value.
#[verifier::opaque]
pub open spec fn be32(x: u32) -> Seq<u8> {
    seq![(x / 16777216) as u8, (x / 65536 % 256) as u8, (x / 256 % 256) as u8, (x % 256) as u8]
}

/// Big-endian bytes of a 16-bit value.
pub open spec fn be16(x: u16) -> Seq<u8> {
    seq![(x / 256) as u8, (x % 256) as u8]
}

/// The 32-bit value of four big-endian bytes starting at `off`.
pub open spec fn read32(s: Seq<u8>, off: int) -> u32 {
    (s[off] as int * 16777216 + s[off + 1] as int * 65536 + s[off + 2] as int * 256 + s[off
        + 3] as int) as u32
}

/// The 16-bit value of two big-endian bytes starting at `off`.
pub open spec fn read16(s: Seq<u8>, off: int) -> u16 {
    (s[off] as int * 256 + s[off + 1] as int) as u16
}

pub proof fn lemma_be32_round_trip(x: u32)
    ensures
        read32(be32(x), 0) == x,
        be32(x).len() == 4,
{
    reveal(be32);
    let s = be32(x);
    assert(s[0] as int == x / 16777216);
    assert(s[1] as int == x / 65536 % 256);
    assert(s[2] as int == x / 256 % 256);
    assert(s[3] as int == x % 256);
    let xi = x as int;
    assert((xi / 16777216) * 16777216 + (xi / 65536 % 256) * 65536 + (xi / 256 % 256) * 256 + xi
        % 256 == xi) by (nonlinear_arith)
        requires
            0 <= xi < 4294967296,
    ;
}

pub proof fn lemma_be16_round_trip(x: u16)
    ensures
        read16(be16(x), 0) == x,
{
}

/// Four bytes read as a big-endian number give those bytes back when written.
pub proof fn lemma_be32_of_read32(s: Seq<u8>, off: int)
    requires
        0 <= off,
        off + 4 <= s.len(),
    ensures
        s.subrange(off, off + 4) == be32(read32(s, off)),
{
    reveal(be32);
    let b0 = s[off] as int;
    let b1 = s[off + 1] as int;
    let b2 = s[off + 2] as int;
    let b3 = s[off + 3] as int;
    let x = b0 * 16777216 + b1 * 65536 + b2 * 256 + b3;
    assert(0 <= x < 4294967296) by (nonlinear_arith)
        requires
            0 <= b0 < 256,
            0 <= b1 < 256,
            0 <= b2 < 256,
            0 <= b3 < 256,
            x == b0 * 16777216 + b1 * 65536 + b2 * 256 + b3,
    ;
    assert(x / 16777216 == b0 && x / 65536 % 256 == b1 && x / 256 % 256 == b2 && x % 256 == b3)
        by (nonlinear_arith)
        requires
            0 <= b0 < 256,
            0 <= b1 < 256,
            0 <= b2 < 256,
            0 <= b3 < 256,
            x == b0 * 16777216 + b1 * 65536 + b2 * 256 + b3,
    ;
    assert(s.subrange(off, off + 4) =~= be32(read32(s, off)));
}

/// Two bytes read as a big-endian number give those bytes back when written.
pub proof fn lemma_be16_of_read16(s: Seq<u8>, off: int)
    requires
        0 <= off,
        off + 2 <= s.len(),
    ensures
        s.subrange(off, off + 2) == be16(read16(s, off)),
{
    assert(s.subrange(off, off + 2) =~= be16(read16(s, off)));
}

/// Appends the big-endian bytes of `x`.
pub fn push_be32(v: &mut Vec<u8>, x: u32)
    ensures
        final(v)@ == old(v)@ + be32(x),
{
    proof {
        reveal(be32);
    }
    v.push((x / 16777216) as u8);
    v.push((x / 65536 % 256) as u8);
    v.push((x / 256 % 256) as u8);
    v.push((x % 256) as u8);
    assert(final(v)@ =~= old(v)@ + be32(x));
}

/// Appends the big-endian bytes of `x`.
pub fn push_be16(v: &mut Vec<u8>, x: u16)
    ensures
        final(v)@ == old(v)@ + be16(x),
{
    v.push((x / 256) as u8);
    v.push((x % 256) as u8);
    assert(final(v)@ =~= old(v)@ + be16(x));
}

/// Reads four big-endian bytes at `off`.
pub fn get_be32(b: &[u8], off: usize) -> (r: u32)
    requires
        off + 4 <= b@.len(),
    ensures
        r == read32(b@, off as int),
{
    let x0 = b[off] as u32;
    let x1 = b[off + 1] as u32;
    let x2 = b[off + 2] as u32;
    let x3 = b[off + 3] as u32;
    x0 * 16777216 + x1 * 65536 + x2 * 256 + x3
}

/// Reads two big-endian bytes at `off`.
pub fn get_be16(b: &[u8], off: usize) -> (r: u16)
    requires
        off + 2 <= b@.len(),
    ensures
        r == read16(b@, off as int),
{
    (b[off] as u16) * 256 + (b[off + 1] as u16)
}

/// Appends all of `src` to `v`.
pub fn push_all(v: &mut Vec<u8>, src: &[u8])
    ensures
        final(v)@ == old(v)@ + src@,
{
    let mut i: usize = 0;
    while i < src.len()
        invariant
            i <= src@.len(),
            v@ == old(v)@ + src@.subrange(0, i as int),
        decreases src@.len() - i,
    {
        v.push(src[i]);
        i += 1;
        assert(v@ =~= old(v)@ + src@.subrange(0, i as int));
    }
    assert(src@.subrange(0, i as int) =~= src@);
}

/// Copies `b[from..to]` into a new vector.
pub fn slice_to_vec(b: &[u8], from: usize, to: usize) -> (r: Vec<u8>)
    requires
        from <= to <= b@.len(),
    ensures
        r@ == b@.subrange(from as int, to as int),
{
    let mut r: Vec<u8> = Vec::new();
    let mut i: usize = from;
    while i < to
        invariant
            from <= i <= to,
            to <= b@.len(),
            r@ == b@.subrange(from as int, i as int),
        decreases to - i,
    {
        r.push(b[i]);
        i += 1;
        assert(r@ =~= b@.subrange(from as int, i as int));
    }
    r
}

/// A copy of `b`.
pub fn copy_bytes(b: &[u8]) -> (r: Vec<u8>)
    ensures
        r@ == b@,
{
    let r = slice_to_vec(b, 0, b.len());
    assert(r@ =~= b@);
    r
}

/// Decimal digits of a natural number, most significant first, with no leading zero.
pub open spec fn decimal(n: nat) -> Seq<u8>
    decreases n,
{
    if n < 10 {
        seq![(48 + n) as u8]
    } else {
        decimal(n / 10).push((48 + n % 10) as u8)
    }
}

/// Whether every byte of `s` is an ASCII decimal digit.
pub open spec fn all_digits(s: Seq<u8>) -> bool {
    forall|i: int| 0 <= i < s.len() ==> 48 <= #[trigger] s[i] <= 57
}

/// The value of a string of decimal digits.
pub open spec fn digits_value(s: Seq<u8>) -> nat
    decreases s.len(),
{
    if s.len() == 0 {
        0
    } else {
        digits_value(s.drop_last()) * 10 + (s.last() - 48) as nat
    }
}

pub proof fn lemma_decimal_digits(n: nat)
    ensures
        all_digits(decimal(n)),
        decimal(n).len() >= 1,
        digits_value(decimal(n)) == n,
    decreases n,
{
    if n >= 10 {
        lemma_decimal_digits(n / 10);
        let d = decimal(n);
        assert(d.drop_last() =~= decimal(n / 10));
        assert(d.last() == (48 + n % 10) as u8);
        assert((n / 10) * 10 + n % 10 == n) by (nonlinear_arith);
        assert((d.last() - 48) as nat == n % 10);
        assert(digits_value(d) == digits_value(d.drop_last()) * 10 + (d.last() - 48) as nat);
        assert forall|i: int| 0 <= i < d.len() implies 48 <= #[trigger] d[i] <= 57 by {
            if i < d.len() - 1 {
                assert(d[i] == decimal(n / 10)[i]);
            }
        }
    } else {
        let d = decimal(n);
        assert(d.drop_last() =~= Seq::<u8>::empty());
        assert(digits_value(d) == digits_value(d.drop_last()) * 10 + (d.last() - 48) as nat);
    }
}

/// Writes `n` in decimal.
pub fn push_decimal(v: &mut Vec<u8>, n: usize)
    ensures
        final(v)@ == old(v)@ + decimal(n as nat),
    decreases n,
{
    if n < 10 {
        v.push(48 + n as u8);
        assert(final(v)@ =~= old(v)@ + decimal(n as nat));
    } else {
        push_decimal(v, n / 10);
        v.push(48 + (n % 10) as u8);
        assert(final(v)@ =~= old(v)@ + decimal(n as nat));
    }
}

} // verus!
