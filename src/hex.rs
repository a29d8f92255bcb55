use vstd::prelude::*;

verus! {

/// The ASCII character of a lowercase hexadecimal digit.
pub open spec fn hex_char(d: u8) -> u8
    recommends
        d < 16,
{
    if d < 10 {
        (48 + d) as u8
    } else {
        (87 + d) as u8
    }
}

/// Whether `c` is an ASCII hexadecimal digit (either case).
pub open spec fn is_hex_char(c: u8) -> bool {
    (48 <= c <= 57) || (97 <= c <= 102) || (65 <= c <= 70)
}

/// The value of a hexadecimal digit.
pub open spec fn hex_value(c: u8) -> u8 {
    if 48 <= c <= 57 {
        (c - 48) as u8
    } else if 97 <= c <= 102 {
        (c - 87) as u8
    } else {
        (c - 55) as u8
    }
}

/// Lowercase hexadecimal text of a byte string: two digits per byte, high nibble first.
pub open spec fn hex_encode(b: Seq<u8>) -> Seq<u8> {
    Seq::new(2 * b.len(), |i: int| if i % 2 == 0 {
        hex_char(b[i / 2] / 16)
    } else {
        hex_char(b[i / 2] % 16)
    })
}

/// Whether `t` is hexadecimal text of whole bytes.
pub open spec fn is_hex_text(t: Seq<u8>) -> bool {
    t.len() % 2 == 0 && forall|i: int| 0 <= i < t.len() ==> is_hex_char(#[trigger] t[i])
}

/// The bytes that hexadecimal text stands for.
pub open spec fn hex_decode(t: Seq<u8>) -> Seq<u8> {
    Seq::new(t.len() / 2, |i: int| (hex_value(t[2 * i]) * 16 + hex_value(t[2 * i + 1])) as u8)
}

/// Lowercase hexadecimal digit for a value below 16.
pub fn hex_digit(d: u8) -> (c: u8)
    requires
        d < 16,
    ensures
        c == hex_char(d),
        is_hex_char(c),
        hex_value(c) == d,
{
    if d < 10 {
        48 + d
    } else {
        87 + d
    }
}

/// Encodes bytes as lowercase hexadecimal text.
pub fn encode_hex(b: &[u8]) -> (r: Vec<u8>)
    requires
        b@.len() <= usize::MAX / 2,
    ensures
        r@ == hex_encode(b@),
{
    let mut r: Vec<u8> = Vec::new();
    let mut i: usize = 0;
    while i < b.len()
        invariant
            i <= b@.len(),
            b@.len() <= usize::MAX / 2,
            r@.len() == 2 * i,
            forall|j: int| 0 <= j < 2 * i ==> r@[j] == #[trigger] hex_encode(b@)[j],
        decreases b@.len() - i,
    {
        let x = b[i];
        r.push(hex_digit(x / 16));
        r.push(hex_digit(x % 16));
        i += 1;
    }
    assert(r@ =~= hex_encode(b@));
    r
}

/// Value of one hexadecimal digit, if `c` is one.
pub fn hex_digit_value(c: u8) -> (r: Option<u8>)
    ensures
        r == (if is_hex_char(c) {
            Some(hex_value(c))
        } else {
            None::<u8>
        }),
{
    if 48 <= c && c <= 57 {
        Some(c - 48)
    } else if 97 <= c && c <= 102 {
        Some(c - 87)
    } else if 65 <= c && c <= 70 {
        Some(c - 55)
    } else {
        None
    }
}

/// Decodes hexadecimal text; `None` when it is not text of whole bytes.
pub fn decode_hex(t: &[u8]) -> (r: Option<Vec<u8>>)
    ensures
        match r {
            Some(v) => is_hex_text(t@) && v@ == hex_decode(t@),
            None => !is_hex_text(t@),
        },
{
    if t.len() % 2 != 0 {
        return None;
    }
    let mut r: Vec<u8> = Vec::new();
    let mut i: usize = 0;
    while i < t.len() / 2
        invariant
            t@.len() % 2 == 0,
            i <= t@.len() / 2,
            r@.len() == i,
            forall|j: int| 0 <= j < 2 * i ==> is_hex_char(#[trigger] t@[j]),
            forall|j: int| 0 <= j < i ==> r@[j] == #[trigger] hex_decode(t@)[j],
        decreases t@.len() / 2 - i,
    {
        let hi = hex_digit_value(t[2 * i]);
        let lo = hex_digit_value(t[2 * i + 1]);
        match (hi, lo) {
            (Some(h), Some(l)) => {
                assert(h < 16 && l < 16);
                r.push(h * 16 + l);
            },
            _ => {
                return None;
            },
        }
        i += 1;
    }
    assert(r@ =~= hex_decode(t@));
    Some(r)
}

} // verus!
