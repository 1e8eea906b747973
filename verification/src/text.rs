//! Searching and writing text.

use crate::bytes::{digit, hex_digit};
use vstd::prelude::*;
use vstd::string::*;

verus! {

/// The characters of a text.
pub fn chars_of(s: &str) -> (v: Vec<char>)
    ensures
        v@ == s@,
{
    let mut v: Vec<char> = Vec::new();
    for c in it: s.chars()
        invariant
            it.seq() == s@,
            v@ =~= s@.take(it.index()),
    {
        v.push(c);
    }
    v
}

/// A stretch of characters as text.
pub fn text_of(v: &Vec<char>, start: usize, end: usize) -> (s: String)
    requires
        start <= end <= v@.len(),
    ensures
        s@ == v@.subrange(start as int, end as int),
{
    let mut s = String::new();
    let mut i: usize = start;
    while i < end
        invariant
            start <= i <= end <= v@.len(),
            s@ =~= v@.subrange(start as int, i as int),
        decreases end - i,
    {
        s.push(v[i]);
        i += 1;
    }
    s
}

/// Appends a text.
pub fn push_text(out: &mut String, more: &str)
    ensures
        final(out)@ == old(out)@ + more@,
{
    out.append(more);
}

// ---------------------------------------------------------------------------
// Searching
// ---------------------------------------------------------------------------

/// `pat` stands in `s` at `i`.
pub open spec fn stands_at<T>(s: Seq<T>, pat: Seq<T>, i: int) -> bool {
    0 <= i && i + pat.len() <= s.len() && s.subrange(i, i + pat.len()) == pat
}

/// The first place from `i` on at which `pat` stands.
pub open spec fn found_from<T>(s: Seq<T>, pat: Seq<T>, i: int) -> Option<int>
    decreases s.len() - i + 1,
{
    if i < 0 || i + pat.len() > s.len() {
        None
    } else if stands_at(s, pat, i) {
        Some(i)
    } else {
        found_from(s, pat, i + 1)
    }
}

/// The first place at which `pat` stands.
pub open spec fn found<T>(s: Seq<T>, pat: Seq<T>) -> Option<int> {
    found_from(s, pat, 0)
}

/// The last place up to `i` at which `pat` stands.
pub open spec fn found_back<T>(s: Seq<T>, pat: Seq<T>, i: int) -> Option<int>
    decreases i + 1,
{
    if i < 0 {
        None
    } else if stands_at(s, pat, i) {
        Some(i)
    } else {
        found_back(s, pat, i - 1)
    }
}

/// The last place at which `pat` stands.
pub open spec fn found_last<T>(s: Seq<T>, pat: Seq<T>) -> Option<int> {
    found_back(s, pat, s.len() - pat.len())
}

/// What is found stands there, and nowhere before.
pub proof fn lemma_found<T>(s: Seq<T>, pat: Seq<T>, i: int)
    requires
        0 <= i,
    ensures
        match found_from(s, pat, i) {
            Some(k) => i <= k && stands_at(s, pat, k) && forall|j: int|
                i <= j < k ==> !#[trigger] stands_at(s, pat, j),
            None => forall|j: int| i <= j ==> !#[trigger] stands_at(s, pat, j),
        },
    decreases s.len() - i + 1,
{
    if i + pat.len() <= s.len() && !stands_at(s, pat, i) {
        lemma_found(s, pat, i + 1);
    }
}

fn stands(s: &Vec<char>, pat: &Vec<char>, at: usize) -> (b: bool)
    requires
        at + pat@.len() <= s@.len(),
    ensures
        b == stands_at(s@, pat@, at as int),
{
    let len: usize = s.len();
    let mut k: usize = 0;
    while k < pat.len()
        invariant
            k <= pat@.len(),
            at + pat@.len() <= s@.len(),
            s@.len() == len,
            forall|j: int| #![trigger pat@[j]] 0 <= j < k ==> s@[at + j] == pat@[j],
        decreases pat@.len() - k,
    {
        if s[at + k] != pat[k] {
            assert(s@.subrange(at as int, at + pat@.len())[k as int] != pat@[k as int]);
            return false;
        }
        k += 1;
    }
    assert(s@.subrange(at as int, at + pat@.len()) =~= pat@);
    true
}

/// The first place from `start` on at which `pat` stands.
pub fn find_text(s: &Vec<char>, pat: &str, start: usize) -> (r: Option<usize>)
    requires
        start <= s@.len(),
    ensures
        match r {
            Some(i) => found_from(s@, pat@, start as int) == Some(i as int),
            None => found_from(s@, pat@, start as int) is None,
        },
        r matches Some(i) ==> start <= i && i + pat@.len() <= s@.len(),
{
    let p = chars_of(pat);
    if p.len() > s.len() || start > s.len() - p.len() {
        return None;
    }
    let last: usize = s.len() - p.len();
    let mut i: usize = start;
    while i < last
        invariant
            start <= i <= last,
            p@ == pat@,
            last == s@.len() - p@.len(),
            found_from(s@, pat@, start as int) == found_from(s@, pat@, i as int),
        decreases last - i,
    {
        if stands(s, &p, i) {
            return Some(i);
        }
        i += 1;
    }
    if stands(s, &p, last) {
        Some(last)
    } else {
        assert(found_from(s@, pat@, last + 1) is None);
        None
    }
}

/// The last place at which `pat` stands in the first `end` characters.
pub fn find_last_text(s: &Vec<char>, pat: &str, end: usize) -> (r: Option<usize>)
    requires
        end <= s@.len(),
        pat@.len() > 0,
    ensures
        match r {
            Some(i) => found_last(s@.take(end as int), pat@) == Some(i as int),
            None => found_last(s@.take(end as int), pat@) is None,
        },
        r matches Some(i) ==> i + pat@.len() <= end,
{
    let p = chars_of(pat);
    let ghost t = s@.take(end as int);
    if p.len() > end {
        return None;
    }
    let mut n: usize = end - p.len() + 1;
    while n > 0
        invariant
            p@ == pat@,
            end <= s@.len(),
            t == s@.take(end as int),
            n <= end - p@.len() + 1,
            found_last(t, pat@) == found_back(t, pat@, n - 1),
        decreases n,
    {
        n -= 1;
        if stands(s, &p, n) {
            assert(t.subrange(n as int, n + pat@.len()) =~= s@.subrange(
                n as int,
                n + pat@.len(),
            ));
            return Some(n);
        }
        assert(t.subrange(n as int, n + pat@.len()) =~= s@.subrange(n as int, n + pat@.len()));
    }
    None
}

/// `pat` stands somewhere in `s`.
pub open spec fn holds_text<T>(s: Seq<T>, pat: Seq<T>) -> bool {
    exists|i: int| stands_at(s, pat, i)
}

/// Whether `pat` stands somewhere in `s`.
pub fn contains_text(s: &str, pat: &str) -> (b: bool)
    ensures
        b == holds_text(s@, pat@),
{
    let v = chars_of(s);
    let r = find_text(&v, pat, 0);
    proof {
        lemma_found(s@, pat@, 0);
        if let Some(i) = r {
            assert(stands_at(s@, pat@, i as int));
        }
    }
    r.is_some()
}

// ---------------------------------------------------------------------------
// Numbers
// ---------------------------------------------------------------------------

/// A number in digits, without leading zeros.
pub open spec fn number_text(v: nat, base: nat) -> Seq<char>
    decreases v,
{
    if base < 2 || v < base {
        seq![hex_digit(v as u8)]
    } else {
        proof {
            assert(v / base < v) by (nonlinear_arith)
                requires
                    v > 0,
                    base >= 2,
            ;
        }
        number_text(v / base, base).push(hex_digit((v % base) as u8))
    }
}

fn number(v: u64, base: u64) -> (s: Vec<char>)
    requires
        2 <= base <= 16,
    ensures
        s@ == number_text(v as nat, base as nat).reverse(),
{
    let mut s: Vec<char> = Vec::new();
    let mut rest: u64 = v;
    assert(s@.reverse() =~= Seq::empty());
    while rest >= base
        invariant
            2 <= base <= 16,
            number_text(v as nat, base as nat) == number_text(rest as nat, base as nat)
                + s@.reverse(),
        decreases rest,
    {
        let ghost before = s@;
        s.push(digit((rest % base) as u8));
        proof {
            assert(s@.reverse() =~= seq![hex_digit((rest % base) as u8)] + before.reverse());
            assert(number_text(rest as nat, base as nat) == number_text(
                (rest / base) as nat,
                base as nat,
            ).push(hex_digit((rest % base) as u8)));
            assert(number_text((rest / base) as nat, base as nat) + s@.reverse() =~= number_text(
                rest as nat,
                base as nat,
            ) + before.reverse());
            assert(rest / base < rest) by (nonlinear_arith)
                requires
                    rest > 0,
                    base >= 2,
            ;
        }
        rest = rest / base;
    }
    let ghost before = s@;
    s.push(digit(rest as u8));
    assert(s@ =~= number_text(v as nat, base as nat).reverse()) by {
        assert(number_text(rest as nat, base as nat) =~= seq![hex_digit(rest as u8)]);
        assert(number_text(v as nat, base as nat) =~= seq![hex_digit(rest as u8)]
            + before.reverse());
    }
    s
}

fn push_reversed(out: &mut String, digits: &Vec<char>)
    ensures
        final(out)@ == old(out)@ + digits@.reverse(),
{
    let ghost start = out@;
    let mut n: usize = digits.len();
    while n > 0
        invariant
            n <= digits@.len(),
            out@ =~= start + digits@.reverse().take(digits@.len() - n),
        decreases n,
    {
        n -= 1;
        out.push(digits[n]);
    }
    assert(digits@.reverse().take(digits@.len() as int) =~= digits@.reverse());
}

/// A number in decimal.
pub open spec fn decimal_text(v: u64) -> Seq<char> {
    number_text(v as nat, 10)
}

/// Appends a number in decimal.
pub fn push_decimal(out: &mut String, v: u64)
    ensures
        final(out)@ == old(out)@ + decimal_text(v),
{
    let digits = number(v, 10);
    push_reversed(out, &digits);
    assert(digits@.reverse() =~= decimal_text(v));
}

/// A number in hexadecimal, after `0x`.
pub open spec fn address_text(v: u64) -> Seq<char> {
    "0x"@ + number_text(v as nat, 16)
}

/// A number in hexadecimal, after `0x`.
pub fn address(v: u64) -> (s: String)
    ensures
        s@ == address_text(v),
{
    let mut s = "0x".to_owned();
    let digits = number(v, 16);
    push_reversed(&mut s, &digits);
    assert(digits@.reverse() =~= number_text(v as nat, 16));
    s
}

/// Zeros in front of a number that has fewer than 16 digits.
pub open spec fn padding(len: nat) -> Seq<char> {
    Seq::new(
        if len < 16 {
            (16 - len) as nat
        } else {
            0
        },
        |i: int| '0',
    )
}

/// A number in 16 hexadecimal digits, after `0x`.
pub open spec fn wide_text(v: u64) -> Seq<char> {
    let digits = number_text(v as nat, 16);
    "0x"@ + padding(digits.len()) + digits
}

/// A number in 16 hexadecimal digits, after `0x`.
pub fn wide_address(v: u64) -> (s: String)
    ensures
        s@ == wide_text(v),
{
    let mut s = "0x".to_owned();
    let digits = number(v, 16);
    assert(digits@.reverse() =~= number_text(v as nat, 16));
    let mut k: usize = digits.len();
    let ghost n = digits@.len();
    let ghost pad = padding(n);
    assert(s@ =~= "0x"@ + pad.take(0));
    while k < 16
        invariant
            n <= k,
            k <= 16 || k == n,
            pad == padding(n),
            s@ =~= "0x"@ + pad.take(k - n),
        decreases 16 - k,
    {
        s.push('0');
        k += 1;
    }
    assert(pad.take(k - n) =~= pad);
    push_reversed(&mut s, &digits);
    assert(s@ =~= wide_text(v));
    s
}

} // verus!
