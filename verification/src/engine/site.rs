//! Names of code places that stay the same from run to run.

use crate::foreign;
use crate::text::{
    address, address_text, chars_of, find_last_text, find_text, found, found_from, found_last,
    lemma_found, push_text, stands_at, text_of,
};
use vstd::prelude::*;
use vstd::string::*;
use vstd::utf8::*;

verus! {

pub open spec fn is_hex_char(c: char) -> bool {
    ('0' <= c <= '9') || ('a' <= c <= 'f') || ('A' <= c <= 'F')
}

/// Number of hexadecimal digits at the start of a text.
pub open spec fn hex_run(s: Seq<char>) -> int
    decreases s.len(),
{
    if s.len() > 0 && is_hex_char(s[0]) {
        1 + hex_run(s.skip(1))
    } else {
        0
    }
}

/// `[module] 0xaddress!0xoffset`: the module in the first bracket, and the
/// offset after the mark that follows the address.
pub open spec fn marked_site(line: Seq<char>) -> Option<Seq<char>> {
    match found(line, "] 0x"@) {
        None => None,
        Some(close) => match found(line.take(close), "["@) {
            None => None,
            Some(open) => {
                let module = line.subrange(open + 1, close);
                let rest = line.skip(close + 4);
                match found(rest, "!"@) {
                    None => None,
                    Some(mark) => {
                        let run = hex_run(rest.skip(mark + 3));
                        if stands_at(rest, "!0x"@, mark) && run > 0 && module.len() > 0 {
                            Some(module + "+0x"@ + rest.subrange(mark + 3, mark + 3 + run))
                        } else {
                            None
                        }
                    },
                }
            },
        },
    }
}

/// `[module 0xoffset] [`: module and offset in the bracket before the encoding.
pub open spec fn bracketed_site(line: Seq<char>) -> Option<Seq<char>> {
    match found(line, "] ["@) {
        None => None,
        Some(close) => match found_last(line.take(close), "["@) {
            None => None,
            Some(open) => {
                let inside = line.subrange(open + 1, close);
                match found_last(inside, " 0x"@) {
                    None => None,
                    Some(gap) => {
                        let offset = inside.skip(gap + 3);
                        if gap > 0 && hex_run(offset) == offset.len() {
                            Some(inside.take(gap) + "+0x"@ + offset)
                        } else {
                            None
                        }
                    },
                }
            },
        },
    }
}

/// Module and offset of a line, if it shows them in a known form.
pub open spec fn site_of(line: Seq<char>) -> Option<Seq<char>> {
    match marked_site(line) {
        Some(site) => Some(site),
        None => bracketed_site(line),
    }
}

proof fn lemma_hex_run(s: Seq<char>, n: int)
    requires
        0 <= n <= s.len(),
        forall|i: int| 0 <= i < n ==> is_hex_char(#[trigger] s[i]),
        n < s.len() ==> !is_hex_char(s[n]),
    ensures
        hex_run(s) == n,
    decreases n,
{
    if n > 0 {
        let t = s.skip(1);
        assert forall|i: int| 0 <= i < n - 1 implies is_hex_char(#[trigger] t[i]) by {
            assert(t[i] == s[i + 1]);
        }
        if n < s.len() {
            assert(t[n - 1] == s[n]);
        }
        lemma_hex_run(t, n - 1);
    }
}

fn is_hex(c: char) -> (b: bool)
    ensures
        b == is_hex_char(c),
{
    ('0' <= c && c <= '9') || ('a' <= c && c <= 'f') || ('A' <= c && c <= 'F')
}

/// Number of hexadecimal digits in `v[start..end]` before anything else.
fn count_hex(v: &Vec<char>, start: usize, end: usize) -> (n: usize)
    requires
        start <= end <= v@.len(),
    ensures
        n == hex_run(v@.subrange(start as int, end as int)),
        n <= end - start,
{
    let ghost s = v@.subrange(start as int, end as int);
    let mut n: usize = 0;
    while n < end - start
        invariant
            start <= end <= v@.len(),
            n <= end - start,
            s == v@.subrange(start as int, end as int),
            forall|i: int| 0 <= i < n ==> is_hex_char(#[trigger] s[i]),
        decreases end - start - n,
    {
        if !is_hex(v[start + n]) {
            assert(s[n as int] == v@[start + n]);
            proof {
                lemma_hex_run(s, n as int);
            }
            return n;
        }
        assert(s[n as int] == v@[start + n]);
        n += 1;
    }
    proof {
        lemma_hex_run(s, n as int);
    }
    n
}

proof fn lemma_found_shift(s: Seq<char>, pat: Seq<char>, cut: int, i: int)
    requires
        0 <= cut <= s.len(),
        cut <= i,
    ensures
        found_from(s, pat, i) == (match found_from(s.skip(cut), pat, i - cut) {
            Some(k) => Some(k + cut),
            None => None,
        }),
    decreases s.len() - i + 1,
{
    let t = s.skip(cut);
    if i + pat.len() <= s.len() {
        assert(t.subrange(i - cut, i - cut + pat.len()) =~= s.subrange(i, i + pat.len()));
        if !stands_at(s, pat, i) {
            lemma_found_shift(s, pat, cut, i + 1);
        }
    }
}

proof fn lemma_found_within(s: Seq<char>, pat: Seq<char>, end: int, i: int)
    requires
        0 <= i,
        0 <= end <= s.len(),
    ensures
        found_from(s.take(end), pat, i) == (match found_from(s, pat, i) {
            Some(k) => if k + pat.len() <= end {
                Some(k)
            } else {
                None
            },
            None => None,
        }),
    decreases s.len() - i + 1,
{
    let t = s.take(end);
    if i + pat.len() <= s.len() {
        if i + pat.len() <= end {
            assert(t.subrange(i, i + pat.len()) =~= s.subrange(i, i + pat.len()));
            if !stands_at(s, pat, i) {
                lemma_found_within(s, pat, end, i + 1);
            }
        } else {
            lemma_found(s, pat, i);
        }
    }
}

fn find_marked(v: &Vec<char>) -> (r: Option<String>)
    ensures
        match marked_site(v@) {
            Some(site) => r matches Some(s) && s@ == site,
            None => r is None,
        },
{
    proof {
        reveal_strlit("] 0x");
        reveal_strlit("[");
        reveal_strlit("!");
        reveal_strlit("!0x");
    }
    let ghost line = v@;
    let close: usize = match find_text(v, "] 0x", 0) {
        Some(i) => i,
        None => {
            return None;
        },
    };
    proof {
        lemma_found_within(line, "["@, close as int, 0);
        lemma_found(line, "["@, 0);
    }
    let open: usize = match find_text(v, "[", 0) {
        Some(i) => i,
        None => {
            return None;
        },
    };
    if open >= close {
        return None;
    }
    let len: usize = v.len();
    assert(close + 4 <= len);
    let ghost rest = line.skip(close + 4);
    proof {
        lemma_found_shift(line, "!"@, close + 4, close + 4);
    }
    let mark: usize = match find_text(v, "!", close + 4) {
        Some(i) => i,
        None => {
            return None;
        },
    };
    let ghost m = mark - (close + 4);
    assert(found(rest, "!"@) == Some(m));
    if v.len() - mark < 3 || v[mark] != '!' || v[mark + 1] != '0' || v[mark + 2] != 'x' {
        proof {
            if stands_at(rest, "!0x"@, m) {
                assert(rest.subrange(m, m + 3)[0] == '!');
                assert(rest.subrange(m, m + 3)[1] == '0');
                assert(rest.subrange(m, m + 3)[2] == 'x');
                assert(rest[m] == line[mark as int]);
                assert(rest[m + 1] == line[mark + 1]);
                assert(rest[m + 2] == line[mark + 2]);
            }
        }
        return None;
    }
    assert(rest.subrange(m, m + 3) =~= "!0x"@);
    let run: usize = count_hex(v, mark + 3, v.len());
    assert(v@.subrange(mark + 3, v@.len() as int) =~= rest.skip(m + 3));
    if run == 0 || open + 1 == close {
        return None;
    }
    let mut site = text_of(v, open + 1, close);
    push_text(&mut site, "+0x");
    let offset = text_of(v, mark + 3, mark + 3 + run);
    push_text(&mut site, offset.as_str());
    assert(rest.subrange(m + 3, m + 3 + run) =~= v@.subrange(mark + 3, mark + 3 + run));
    Some(site)
}

fn find_bracketed(v: &Vec<char>) -> (r: Option<String>)
    ensures
        match bracketed_site(v@) {
            Some(site) => r matches Some(s) && s@ == site,
            None => r is None,
        },
{
    proof {
        reveal_strlit("] [");
        reveal_strlit("[");
        reveal_strlit(" 0x");
    }
    let ghost line = v@;
    let close: usize = match find_text(v, "] [", 0) {
        Some(i) => i,
        None => {
            return None;
        },
    };
    let open: usize = match find_last_text(v, "[", close) {
        Some(i) => i,
        None => {
            return None;
        },
    };
    let inside_text = text_of(v, open + 1, close);
    let inside = chars_of(inside_text.as_str());
    assert(inside@ == line.subrange(open + 1, close as int));
    assert(inside@.take(inside@.len() as int) =~= inside@);
    let gap: usize = match find_last_text(&inside, " 0x", inside.len()) {
        Some(i) => i,
        None => {
            return None;
        },
    };
    let run: usize = count_hex(&inside, gap + 3, inside.len());
    assert(inside@.subrange(gap + 3, inside@.len() as int) =~= inside@.skip(gap + 3));
    if gap == 0 || run != inside.len() - (gap + 3) {
        return None;
    }
    let mut site = text_of(&inside, 0, gap);
    push_text(&mut site, "+0x");
    let offset = text_of(&inside, gap + 3, inside.len());
    push_text(&mut site, offset.as_str());
    assert(inside@.subrange(0, gap as int) =~= inside@.take(gap as int));
    Some(site)
}

/// Module and offset of a line: `libtiny.so+0x174250`. A line in no known form
/// has none.
pub fn stable_site(line: &str) -> (r: Option<String>)
    ensures
        match site_of(line@) {
            Some(site) => r matches Some(s) && s@ == site,
            None => r is None,
        },
{
    let v = chars_of(line);
    match find_marked(&v) {
        Some(site) => Some(site),
        None => find_bracketed(&v),
    }
}

/// The text of a line, if it is text.
pub open spec fn line_chars(line: Seq<u8>) -> Option<Seq<char>> {
    if valid_utf8(line) {
        Some(decode_utf8(line))
    } else {
        None
    }
}

/// Module and offset of a line; where it shows none, the address it ran at,
/// marked as such.
pub open spec fn shown_site(line: Option<Seq<u8>>, pc: u64) -> Seq<char> {
    let site = match line {
        Some(bytes) => match line_chars(bytes) {
            Some(text) => site_of(text),
            None => None,
        },
        None => None,
    };
    match site {
        Some(site) => site,
        None => "runtime:"@ + address_text(pc),
    }
}

/// Module and offset of a line, or the address it ran at.
pub fn site_or_runtime(line: Option<&[u8]>, pc: u64) -> (s: String)
    ensures
        s@ == shown_site(
            match line {
                Some(bytes) => Some(bytes@),
                None => None,
            },
            pc,
        ),
{
    if let Some(bytes) = line {
        if let Some(text) = foreign::text_from_utf8(bytes) {
            proof {
                encode_utf8_decode_utf8(text@);
            }
            if let Some(site) = stable_site(text) {
                return site;
            }
        }
    }
    let mut s = "runtime:".to_owned();
    push_text(&mut s, address(pc).as_str());
    s
}

} // verus!
