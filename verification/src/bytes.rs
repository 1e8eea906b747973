//! Numbers as little-endian bytes, and bytes as hexadecimal text.

use vstd::prelude::*;

verus! {

/// The bytes of a number, the lowest first.
pub open spec fn le32(v: u32) -> Seq<u8> {
    seq![
        (v & 0xff) as u8,
        ((v >> 8u32) & 0xff) as u8,
        ((v >> 16u32) & 0xff) as u8,
        ((v >> 24u32) & 0xff) as u8,
    ]
}

/// The bytes of a number, the lowest first.
pub open spec fn le64(v: u64) -> Seq<u8> {
    seq![
        (v & 0xff) as u8,
        ((v >> 8u64) & 0xff) as u8,
        ((v >> 16u64) & 0xff) as u8,
        ((v >> 24u64) & 0xff) as u8,
        ((v >> 32u64) & 0xff) as u8,
        ((v >> 40u64) & 0xff) as u8,
        ((v >> 48u64) & 0xff) as u8,
        ((v >> 56u64) & 0xff) as u8,
    ]
}

/// The number that four bytes stand for.
pub open spec fn from_le32(s: Seq<u8>) -> u32 {
    (s[0] as u32) | ((s[1] as u32) << 8u32) | ((s[2] as u32) << 16u32) | ((s[3] as u32) << 24u32)
}

/// The number that eight bytes stand for.
pub open spec fn from_le64(s: Seq<u8>) -> u64 {
    (s[0] as u64) | ((s[1] as u64) << 8u64) | ((s[2] as u64) << 16u64) | ((s[3] as u64) << 24u64)
        | ((s[4] as u64) << 32u64) | ((s[5] as u64) << 40u64) | ((s[6] as u64) << 48u64) | ((
    s[7] as u64) << 56u64)
}

/// Reading back the bytes of a number gives the number.
pub proof fn law_le32_read_back(v: u32)
    ensures
        from_le32(le32(v)) == v,
        le32(v).len() == 4,
{
    let a = (v & 0xff) as u8;
    let b = ((v >> 8u32) & 0xff) as u8;
    let c = ((v >> 16u32) & 0xff) as u8;
    let d = ((v >> 24u32) & 0xff) as u8;
    assert((a as u32) | ((b as u32) << 8u32) | ((c as u32) << 16u32) | ((d as u32) << 24u32) == v)
        by (bit_vector)
        requires
            a == (v & 0xff) as u8,
            b == ((v >> 8u32) & 0xff) as u8,
            c == ((v >> 16u32) & 0xff) as u8,
            d == ((v >> 24u32) & 0xff) as u8,
    ;
}

/// Reading back the bytes of a number gives the number.
pub proof fn law_le64_read_back(v: u64)
    ensures
        from_le64(le64(v)) == v,
        le64(v).len() == 8,
{
    let a = (v & 0xff) as u8;
    let b = ((v >> 8u64) & 0xff) as u8;
    let c = ((v >> 16u64) & 0xff) as u8;
    let d = ((v >> 24u64) & 0xff) as u8;
    let e = ((v >> 32u64) & 0xff) as u8;
    let f = ((v >> 40u64) & 0xff) as u8;
    let g = ((v >> 48u64) & 0xff) as u8;
    let h = ((v >> 56u64) & 0xff) as u8;
    assert((a as u64) | ((b as u64) << 8u64) | ((c as u64) << 16u64) | ((d as u64) << 24u64) | ((
    e as u64) << 32u64) | ((f as u64) << 40u64) | ((g as u64) << 48u64) | ((h as u64) << 56u64) == v)
        by (bit_vector)
        requires
            a == (v & 0xff) as u8,
            b == ((v >> 8u64) & 0xff) as u8,
            c == ((v >> 16u64) & 0xff) as u8,
            d == ((v >> 24u64) & 0xff) as u8,
            e == ((v >> 32u64) & 0xff) as u8,
            f == ((v >> 40u64) & 0xff) as u8,
            g == ((v >> 48u64) & 0xff) as u8,
            h == ((v >> 56u64) & 0xff) as u8,
    ;
}

/// Four bytes are those of the number that they stand for.
pub proof fn lemma_from_le32(s: Seq<u8>)
    requires
        s.len() == 4,
    ensures
        le32(from_le32(s)) == s,
{
    let (a, b, c, d) = (s[0], s[1], s[2], s[3]);
    let v = from_le32(s);
    assert((v & 0xff) as u8 == a && ((v >> 8u32) & 0xff) as u8 == b && ((v >> 16u32) & 0xff) as u8
        == c && ((v >> 24u32) & 0xff) as u8 == d) by (bit_vector)
        requires
            v == (a as u32) | ((b as u32) << 8u32) | ((c as u32) << 16u32) | ((d as u32) << 24u32),
    ;
    assert(le32(v) =~= s);
}

/// Eight bytes are those of the number that they stand for.
pub proof fn lemma_from_le64(s: Seq<u8>)
    requires
        s.len() == 8,
    ensures
        le64(from_le64(s)) == s,
{
    let (a, b, c, d) = (s[0], s[1], s[2], s[3]);
    let (e, f, g, h) = (s[4], s[5], s[6], s[7]);
    let v = from_le64(s);
    assert((v & 0xff) as u8 == a && ((v >> 8u64) & 0xff) as u8 == b && ((v >> 16u64) & 0xff) as u8
        == c && ((v >> 24u64) & 0xff) as u8 == d && ((v >> 32u64) & 0xff) as u8 == e && ((v
        >> 40u64) & 0xff) as u8 == f && ((v >> 48u64) & 0xff) as u8 == g && ((v >> 56u64)
        & 0xff) as u8 == h) by (bit_vector)
        requires
            v == (a as u64) | ((b as u64) << 8u64) | ((c as u64) << 16u64) | ((d as u64) << 24u64)
                | ((e as u64) << 32u64) | ((f as u64) << 40u64) | ((g as u64) << 48u64) | ((
            h as u64) << 56u64),
    ;
    assert(le64(v) =~= s);
}

/// Different numbers have different bytes.
pub proof fn lemma_le64_injective(a: u64, b: u64)
    requires
        le64(a) == le64(b),
    ensures
        a == b,
{
    law_le64_read_back(a);
    law_le64_read_back(b);
}

/// Different numbers have different bytes.
pub proof fn lemma_le32_injective(a: u32, b: u32)
    requires
        le32(a) == le32(b),
    ensures
        a == b,
{
    law_le32_read_back(a);
    law_le32_read_back(b);
}

pub fn push_le32(out: &mut Vec<u8>, v: u32)
    ensures
        final(out)@ == old(out)@ + le32(v),
{
    let ghost start = out@;
    out.push((v & 0xff) as u8);
    out.push(((v >> 8u32) & 0xff) as u8);
    out.push(((v >> 16u32) & 0xff) as u8);
    out.push(((v >> 24u32) & 0xff) as u8);
    assert(out@ =~= start + le32(v));
}

pub fn push_le64(out: &mut Vec<u8>, v: u64)
    ensures
        final(out)@ == old(out)@ + le64(v),
{
    let ghost start = out@;
    out.push((v & 0xff) as u8);
    out.push(((v >> 8u64) & 0xff) as u8);
    out.push(((v >> 16u64) & 0xff) as u8);
    out.push(((v >> 24u64) & 0xff) as u8);
    out.push(((v >> 32u64) & 0xff) as u8);
    out.push(((v >> 40u64) & 0xff) as u8);
    out.push(((v >> 48u64) & 0xff) as u8);
    out.push(((v >> 56u64) & 0xff) as u8);
    assert(out@ =~= start + le64(v));
}

/// The number at a position.
pub fn read_le32(s: &[u8], at: usize) -> (v: u32)
    requires
        at + 4 <= s@.len(),
    ensures
        v == from_le32(s@.subrange(at as int, at + 4)),
{
    (s[at] as u32) | ((s[at + 1] as u32) << 8u32) | ((s[at + 2] as u32) << 16u32) | ((s[at
        + 3] as u32) << 24u32)
}

/// The number at a position.
pub fn read_le64(s: &[u8], at: usize) -> (v: u64)
    requires
        at + 8 <= s@.len(),
    ensures
        v == from_le64(s@.subrange(at as int, at + 8)),
{
    (s[at] as u64) | ((s[at + 1] as u64) << 8u64) | ((s[at + 2] as u64) << 16u64) | ((s[at
        + 3] as u64) << 24u64) | ((s[at + 4] as u64) << 32u64) | ((s[at + 5] as u64) << 40u64) | ((
    s[at + 6] as u64) << 48u64) | ((s[at + 7] as u64) << 56u64)
}

pub fn push_all(out: &mut Vec<u8>, more: &[u8])
    ensures
        final(out)@ == old(out)@ + more@,
{
    let ghost start = out@;
    let mut i: usize = 0;
    while i < more.len()
        invariant
            i <= more@.len(),
            out@ =~= start + more@.take(i as int),
        decreases more@.len() - i,
    {
        out.push(more[i]);
        i += 1;
    }
    assert(more@.take(more@.len() as int) =~= more@);
}

/// Whether two byte strings are equal.
pub fn same_bytes(a: &[u8], b: &[u8]) -> (r: bool)
    ensures
        r == (a@ == b@),
{
    if a.len() != b.len() {
        return false;
    }
    let mut i: usize = 0;
    while i < a.len()
        invariant
            i <= a@.len(),
            a@.len() == b@.len(),
            forall|k: int| 0 <= k < i ==> a@[k] == b@[k],
        decreases a@.len() - i,
    {
        if a[i] != b[i] {
            assert(a@[i as int] != b@[i as int]);
            return false;
        }
        i += 1;
    }
    assert(a@ =~= b@);
    true
}

/// The lower-case hexadecimal digit of a number below sixteen.
pub open spec fn hex_digit(n: u8) -> char {
    if n < 10 {
        (48 + n) as char
    } else {
        (87 + n) as char
    }
}

/// Bytes as hexadecimal text, two digits each.
pub open spec fn hex_text(bytes: Seq<u8>) -> Seq<char>
    decreases bytes.len(),
{
    if bytes.len() == 0 {
        Seq::empty()
    } else {
        hex_text(bytes.drop_last()).push(hex_digit(bytes.last() / 16)).push(
            hex_digit(bytes.last() % 16),
        )
    }
}

pub fn digit(n: u8) -> (c: char)
    requires
        n < 16,
    ensures
        c == hex_digit(n),
{
    if n < 10 {
        (48 + n) as char
    } else {
        (87 + n) as char
    }
}

/// Bytes as hexadecimal text.
pub fn to_hex(bytes: &[u8]) -> (s: String)
    ensures
        s@ == hex_text(bytes@),
{
    let mut s = String::new();
    let mut i: usize = 0;
    assert(bytes@.take(0) =~= Seq::empty());
    while i < bytes.len()
        invariant
            i <= bytes@.len(),
            s@ == hex_text(bytes@.take(i as int)),
        decreases bytes@.len() - i,
    {
        assert(bytes@.take(i + 1).drop_last() =~= bytes@.take(i as int));
        let b: u8 = bytes[i];
        s.push(digit(b / 16));
        s.push(digit(b % 16));
        i += 1;
    }
    assert(bytes@.take(bytes@.len() as int) =~= bytes@);
    s
}

} // verus!
