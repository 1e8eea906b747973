//! Temporary files of cache writers.
//!
//! A writer works on `.{name}.tmp.{pid}.{unique}` and renames it when it is
//! done. What a writer leaves behind when it dies is reclaimed by the next one.

use crate::bytes::hex_digit;
use crate::text::{
    chars_of, decimal_text, find_last_text, find_text, found, found_back, found_from, found_last,
    holds_text, lemma_found, number_text, push_decimal, push_text, stands_at,
};
use vstd::prelude::*;
use vstd::string::*;

verus! {

/// Seconds after which a temporary file that its writer does not hold open is
/// reclaimed though a process of that number is alive.
pub const STAGING_MAX_AGE: u64 = 86400;

/// The highest process number.
pub const MAX_PID: u32 = 0x7FFF_FFFF;

// ---------------------------------------------------------------------------
// Names
// ---------------------------------------------------------------------------

/// The name of a temporary file.
pub open spec fn staging_text(name: Seq<char>, pid: u32, unique: Seq<char>) -> Seq<char> {
    "."@ + name + ".tmp."@ + decimal_text(pid as u64) + "."@ + unique
}

/// The name of a temporary file.
pub fn staging_name(name: &str, pid: u32, unique: &str) -> (s: String)
    ensures
        s@ == staging_text(name@, pid, unique@),
{
    let mut s = ".".to_owned();
    push_text(&mut s, name);
    push_text(&mut s, ".tmp.");
    push_decimal(&mut s, pid as u64);
    push_text(&mut s, ".");
    push_text(&mut s, unique);
    s
}

pub open spec fn is_digit(c: char) -> bool {
    '0' <= c <= '9'
}

pub open spec fn all_digits(s: Seq<char>) -> bool {
    s.len() > 0 && forall|i: int| 0 <= i < s.len() ==> is_digit(#[trigger] s[i])
}

/// The number that decimal digits stand for.
pub open spec fn decimal_value(s: Seq<char>) -> nat
    decreases s.len(),
{
    if s.len() == 0 {
        0
    } else {
        decimal_value(s.drop_last()) * 10 + (s.last() as int - '0' as int) as nat
    }
}

/// A number in decimal; a plus sign may stand before it.
pub open spec fn parsed_decimal(s: Seq<char>) -> Option<u32> {
    let digits = if s.len() > 0 && s[0] == '+' {
        s.skip(1)
    } else {
        s
    };
    if all_digits(digits) && decimal_value(digits) <= u32::MAX {
        Some(decimal_value(digits) as u32)
    } else {
        None
    }
}

/// What stands before the first dot.
pub open spec fn before_dot(s: Seq<char>) -> Seq<char> {
    match found(s, "."@) {
        Some(i) => s.take(i),
        None => s,
    }
}

/// Name and writer of a temporary file; other files have none.
pub open spec fn staging_parts(s: Seq<char>) -> Option<(Seq<char>, u32)> {
    if s.len() == 0 || s[0] != '.' {
        None
    } else {
        let rest = s.skip(1);
        match found_last(rest, ".tmp."@) {
            None => None,
            Some(at) => match parsed_decimal(before_dot(rest.skip(at + 5))) {
                Some(pid) => Some((rest.take(at), pid)),
                None => None,
            },
        }
    }
}

proof fn lemma_value_grows(s: Seq<char>, n: int)
    requires
        0 <= n <= s.len(),
        forall|i: int| 0 <= i < s.len() ==> is_digit(#[trigger] s[i]),
    ensures
        decimal_value(s.take(n)) <= decimal_value(s),
    decreases s.len(),
{
    if n < s.len() {
        assert forall|i: int| 0 <= i < s.drop_last().len() implies is_digit(
            #[trigger] s.drop_last()[i],
        ) by {
            assert(s.drop_last()[i] == s[i]);
        }
        lemma_value_grows(s.drop_last(), n);
        assert(s.drop_last().take(n) =~= s.take(n));
    } else {
        assert(s.take(n) =~= s);
    }
}

/// The number in `v[start..end]`.
fn parse_decimal(v: &Vec<char>, start: usize, end: usize) -> (r: Option<u32>)
    requires
        start <= end <= v@.len(),
    ensures
        r == parsed_decimal(v@.subrange(start as int, end as int)),
{
    let ghost s = v@.subrange(start as int, end as int);
    let mut i: usize = start;
    if i < end && v[i] == '+' {
        i += 1;
    }
    let first: usize = i;
    let ghost digits = v@.subrange(first as int, end as int);
    assert(first > start ==> digits =~= s.skip(1));
    assert(first == start ==> digits =~= s);
    if first == end {
        return None;
    }
    let mut ok: bool = true;
    while i < end && ok
        invariant
            start <= first <= i <= end <= v@.len(),
            digits == v@.subrange(first as int, end as int),
            forall|k: int| 0 <= k < i - first ==> is_digit(#[trigger] digits[k]),
            !ok ==> i < end && !is_digit(digits[i - first]),
        decreases end - i + (if ok {
            1int
        } else {
            0
        }),
    {
        let c: char = v[i];
        assert(digits[i - first] == c);
        if '0' <= c && c <= '9' {
            i += 1;
        } else {
            ok = false;
        }
    }
    if !ok {
        return None;
    }
    let mut value: u64 = 0;
    let mut k: usize = first;
    assert(digits.take(0) =~= Seq::empty());
    while k < end
        invariant
            first <= k <= end <= v@.len(),
            digits == v@.subrange(first as int, end as int),
            forall|j: int| 0 <= j < digits.len() ==> is_digit(#[trigger] digits[j]),
            value == decimal_value(digits.take(k - first)),
            value <= u32::MAX,
            digits.len() > 0,
            s == v@.subrange(start as int, end as int),
            digits == (if s.len() > 0 && s[0] == '+' {
                s.skip(1)
            } else {
                s
            }),
        decreases end - k,
    {
        let c: char = v[k];
        assert(digits[k - first] == c);
        proof {
            assert(digits.take(k - first + 1).drop_last() =~= digits.take(k - first));
            lemma_value_grows(digits, k - first + 1);
        }
        value = value * 10 + (c as u64 - '0' as u64);
        if value > 0xFFFF_FFFF {
            return None;
        }
        k += 1;
    }
    assert(digits.take(digits.len() as int) =~= digits);
    Some(value as u32)
}

/// Name and writer of a temporary file; a file in any other form is not one.
pub fn parse_staging_name(name: &str) -> (r: Option<(&str, u32)>)
    ensures
        match staging_parts(name@) {
            Some((cache_name, pid)) => r matches Some((n, p)) && n@ == cache_name && p == pid,
            None => r is None,
        },
{
    proof {
        reveal_strlit(".tmp.");
        reveal_strlit(".");
    }
    let v = chars_of(name);
    let len: usize = v.len();
    if len == 0 || v[0] != '.' {
        return None;
    }
    let rest_text = name.substring_char(1, name.unicode_len());
    assert(rest_text@ =~= name@.skip(1));
    let rest = chars_of(rest_text);
    let n: usize = rest.len();
    assert(rest@.take(n as int) =~= rest@);
    let at: usize = match find_last_text(&rest, ".tmp.", n) {
        Some(at) => at,
        None => {
            return None;
        },
    };
    let ghost after = rest@.skip(at + 5);
    let end: usize = match find_text(&rest, ".", at + 5) {
        Some(end) => end,
        None => n,
    };
    proof {
        lemma_found_after(rest@, "."@, at + 5);
        assert(before_dot(after) =~= rest@.subrange(at + 5, end as int));
    }
    match parse_decimal(&rest, at + 5, end) {
        Some(pid) => {
            let cache_name = rest_text.substring_char(0, at);
            assert(cache_name@ =~= rest@.take(at as int));
            Some((cache_name, pid))
        },
        None => None,
    }
}

/// A search from a place on is a search in what follows.
proof fn lemma_found_after(s: Seq<char>, pat: Seq<char>, cut: int)
    requires
        0 <= cut <= s.len(),
    ensures
        match found(s.skip(cut), pat) {
            Some(k) => found_from(s, pat, cut) == Some(k + cut),
            None => found_from(s, pat, cut) is None,
        },
{
    lemma_found_after_from(s, pat, cut, cut);
}

proof fn lemma_found_after_from(s: Seq<char>, pat: Seq<char>, cut: int, i: int)
    requires
        0 <= cut <= i,
        cut <= s.len(),
    ensures
        match found_from(s.skip(cut), pat, i - cut) {
            Some(k) => found_from(s, pat, i) == Some(k + cut),
            None => found_from(s, pat, i) is None,
        },
    decreases s.len() - i + 1,
{
    let t = s.skip(cut);
    if i + pat.len() <= s.len() {
        assert(t.subrange(i - cut, i - cut + pat.len()) =~= s.subrange(i, i + pat.len()));
        if !stands_at(s, pat, i) {
            lemma_found_after_from(s, pat, cut, i + 1);
        }
    }
}

// ---------------------------------------------------------------------------
// Reclaiming
// ---------------------------------------------------------------------------

/// Age in seconds and nanoseconds, if it is known.
pub open spec fn aged_out(age: Option<(u64, u32)>) -> bool {
    age matches Some((secs, nanos)) && (secs > STAGING_MAX_AGE || (secs == STAGING_MAX_AGE && nanos
        > 0))
}

/// Whether a number can be that of a process at all.
pub fn is_process_number(pid: u32) -> (b: bool)
    ensures
        b == (pid <= MAX_PID),
{
    pid <= MAX_PID
}

/// Whether a temporary file is reclaimed. That of a dead writer is; a writer
/// that holds its file keeps it at any age; one that is alive but does not hold
/// the file keeps it for a while.
pub fn staging_is_stale(pid_alive: bool, held: bool, age: Option<(u64, u32)>) -> (b: bool)
    ensures
        b == (!pid_alive || (!held && aged_out(age))),
{
    if !pid_alive {
        return true;
    }
    if held {
        return false;
    }
    match age {
        Some((secs, nanos)) => secs > STAGING_MAX_AGE || (secs == STAGING_MAX_AGE && nanos > 0),
        None => false,
    }
}

// ---------------------------------------------------------------------------
// Laws
// ---------------------------------------------------------------------------

proof fn lemma_number_digits(v: nat)
    ensures
        all_digits(number_text(v, 10)),
        decimal_value(number_text(v, 10)) == v,
    decreases v,
{
    if v < 10 {
        let s = number_text(v, 10);
        assert(s =~= seq![hex_digit(v as u8)]);
        assert(s.drop_last() =~= Seq::empty());
        assert(decimal_value(s.drop_last()) == 0);
    } else {
        lemma_number_digits(v / 10);
        let head = number_text(v / 10, 10);
        let s = number_text(v, 10);
        assert(s == head.push(hex_digit((v % 10) as u8)));
        assert(s.drop_last() =~= head);
        assert forall|i: int| 0 <= i < s.len() implies is_digit(#[trigger] s[i]) by {
            if i < head.len() {
                assert(s[i] == head[i]);
            }
        }
    }
}

/// A temporary file is recognised: its name gives back the cache and the
/// writer, unless the unique part looks like a temporary file itself.
#[verifier::rlimit(40)]
pub proof fn law_staging_names_are_recognised(name: Seq<char>, pid: u32, unique: Seq<char>)
    requires
        !holds_text("."@ + unique, ".tmp."@),
    ensures
        staging_parts(staging_text(name, pid, unique)) == Some((name, pid)),
{
    reveal_strlit(".");
    reveal_strlit(".tmp.");
    let sep = ".tmp."@;
    let digits = decimal_text(pid as u64);
    let s = staging_text(name, pid, unique);
    let rest = s.skip(1);
    let n = name.len() as int;
    let d = digits.len() as int;
    let tail = "."@ + unique;
    lemma_number_digits(pid as nat);
    assert(rest =~= name + sep + digits + tail);
    assert(rest.subrange(n, n + 5) =~= sep);
    assert forall|i: int| n < i <= rest.len() - 5 implies !#[trigger] stands_at(rest, sep, i) by {
        if stands_at(rest, sep, i) {
            let part = rest.subrange(i, i + 5);
            assert(part[0] == '.' && part[1] == 't');
            assert(rest[i] == '.' && rest[i + 1] == 't');
            if i < n + 5 {
                assert(rest[n + 1] == 't' && rest[n + 2] == 'm' && rest[n + 3] == 'p');
                assert(i == n + 4);
                assert(rest[n + 5] == digits[0]);
                assert(is_digit(digits[0]));
            } else if i < n + 5 + d {
                assert(rest[i] == digits[i - n - 5]);
                assert(is_digit(digits[i - n - 5]));
            } else {
                let k = i - (n + 5 + d);
                assert(tail.subrange(k, k + 5) =~= part);
                assert(stands_at(tail, sep, k));
            }
        }
    }
    lemma_last_at(rest, sep, n, rest.len() - 5);
    let after = rest.skip(n + 5);
    assert(after =~= digits + tail);
    assert(found(after, "."@) == Some(d)) by {
        assert(after.subrange(d, d + 1) =~= "."@);
        assert forall|j: int| 0 <= j < d implies !#[trigger] stands_at(after, "."@, j) by {
            if stands_at(after, "."@, j) {
                assert(after.subrange(j, j + 1)[0] == '.');
                assert(after[j] == digits[j]);
                assert(is_digit(digits[j]));
            }
        }
        lemma_found(after, "."@, 0);
        assert(stands_at(after, "."@, d));
    }
    assert(before_dot(after) =~= digits);
    assert(is_digit(digits[0]));
    assert(rest.take(n) =~= name);
}

/// The last place, if nothing stands behind it.
proof fn lemma_last_at(s: Seq<char>, pat: Seq<char>, at: int, i: int)
    requires
        0 <= at <= i,
        stands_at(s, pat, at),
        forall|j: int| at < j <= i ==> !#[trigger] stands_at(s, pat, j),
    ensures
        found_back(s, pat, i) == Some(at),
    decreases i - at,
{
    if i > at {
        assert(!stands_at(s, pat, i));
        lemma_last_at(s, pat, at, i - 1);
    }
}

} // verus!
