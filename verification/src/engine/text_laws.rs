//! How text is read and written.

use crate::bytes::{hex_digit, hex_text};
use crate::engine::registers::{is_white, names_from, reg_name, word_end};
use crate::engine::site::{bracketed_site, hex_run, is_hex_char, marked_site};
use crate::helper::value_after;
use crate::memory_search::request;
use crate::memory_search::request::{hex_bytes, is_space, nibble, solid};
use crate::parallel::{chunk_starts, next_start};
use crate::scanner::lines::{line_break, NEWLINE};
use crate::text::{decimal_text, found, found_back, found_from, found_last, number_text, stands_at};
use vstd::prelude::*;

verus! {

// ---------------------------------------------------------------------------
// Places
// ---------------------------------------------------------------------------

proof fn lemma_found_from<T>(s: Seq<T>, pat: Seq<T>, i: int)
    requires
        0 <= i,
    ensures
        match found_from(s, pat, i) {
            Some(at) => i <= at && stands_at(s, pat, at) && forall|j: int|
                i <= j < at ==> !#[trigger] stands_at(s, pat, j),
            None => forall|j: int| i <= j ==> !#[trigger] stands_at(s, pat, j),
        },
    decreases s.len() - i + 1,
{
    if i + pat.len() <= s.len() && !stands_at(s, pat, i) {
        lemma_found_from(s, pat, i + 1);
    }
}

/// What is looked for is found where it stands first, and not found where it
/// stands nowhere.
pub proof fn law_the_first_place_is_found<T>(s: Seq<T>, pat: Seq<T>)
    ensures
        match found(s, pat) {
            Some(at) => stands_at(s, pat, at) && forall|j: int|
                j < at ==> !#[trigger] stands_at(s, pat, j),
            None => forall|j: int| !#[trigger] stands_at(s, pat, j),
        },
{
    lemma_found_from(s, pat, 0);
}

proof fn lemma_found_back<T>(s: Seq<T>, pat: Seq<T>, i: int)
    ensures
        match found_back(s, pat, i) {
            Some(at) => at <= i && stands_at(s, pat, at) && forall|j: int|
                at < j <= i ==> !#[trigger] stands_at(s, pat, j),
            None => forall|j: int| j <= i ==> !#[trigger] stands_at(s, pat, j),
        },
    decreases i + 1,
{
    if i >= 0 && !stands_at(s, pat, i) {
        lemma_found_back(s, pat, i - 1);
    }
}

/// Looked for from the end, it is found where it stands last.
pub proof fn law_the_last_place_is_found<T>(s: Seq<T>, pat: Seq<T>)
    ensures
        match found_last(s, pat) {
            Some(at) => stands_at(s, pat, at) && forall|j: int|
                j > at ==> !#[trigger] stands_at(s, pat, j),
            None => forall|j: int| !#[trigger] stands_at(s, pat, j),
        },
{
    lemma_found_back(s, pat, s.len() - pat.len());
}

/// The value of a flag is what follows the first argument that is the flag and
/// has a follower.
pub proof fn law_a_flag_has_the_value_that_follows(
    args: Seq<String>,
    name: Seq<char>,
    i: int,
    k: int,
)
    requires
        0 <= i <= k,
        k + 1 < args.len(),
        args[k]@ == name,
        forall|j: int| #![trigger args[j]] i <= j < k ==> args[j]@ != name,
    ensures
        value_after(args, name, i) == Some(args[k + 1]@),
    decreases k - i,
{
    if i < k {
        assert(args[i]@ != name);
        law_a_flag_has_the_value_that_follows(args, name, i + 1, k);
    }
}

/// A flag that no argument with a follower is has no value.
pub proof fn law_an_absent_flag_has_no_value(args: Seq<String>, name: Seq<char>, i: int)
    requires
        0 <= i,
        forall|j: int| #![trigger args[j]] i <= j < args.len() - 1 ==> args[j]@ != name,
    ensures
        value_after(args, name, i) is None,
    decreases args.len() - i,
{
    if i + 1 < args.len() {
        assert(args[i]@ != name);
        law_an_absent_flag_has_no_value(args, name, i + 1);
    }
}

// ---------------------------------------------------------------------------
// Registers
// ---------------------------------------------------------------------------

/// A word of the text from `start` on: it begins and ends at white space or at
/// an end of the text, and holds none.
pub open spec fn is_word(s: Seq<char>, start: int, a: int, b: int) -> bool {
    &&& start <= a < b <= s.len()
    &&& a == start || is_white(s[a - 1])
    &&& b == s.len() || is_white(s[b])
    &&& forall|j: int| #![trigger s[j]] a <= j < b ==> !is_white(s[j])
}

/// The first equals sign of the word stands at `q`.
pub open spec fn is_assigned(s: Seq<char>, a: int, b: int, q: int) -> bool {
    &&& a <= q < b
    &&& s[q] == '='
    &&& forall|j: int| #![trigger s[j]] a <= j < q ==> s[j] != '='
}

proof fn lemma_word_end(s: Seq<char>, i: int)
    requires
        0 <= i <= s.len(),
    ensures
        i <= word_end(s, i) <= s.len(),
        word_end(s, i) == s.len() || is_white(s[word_end(s, i)]),
        forall|j: int| #![trigger s[j]] i <= j < word_end(s, i) ==> !is_white(s[j]),
    decreases s.len() - i,
{
    if i < s.len() && !is_white(s[i]) {
        lemma_word_end(s, i + 1);
    }
}

proof fn lemma_equals(word: Seq<char>)
    ensures
        match found(word, "="@) {
            Some(q) => is_assigned(word, 0, word.len() as int, q),
            None => forall|j: int| #![trigger word[j]] 0 <= j < word.len() ==> word[j] != '=',
        },
{
    reveal_strlit("=");
    law_the_first_place_is_found(word, "="@);
    assert forall|j: int| 0 <= j < word.len() implies #[trigger] stands_at(word, "="@, j) == (
    word[j] == '=') by {
        if word[j] == '=' {
            assert(word.subrange(j, j + 1) =~= "="@);
        }
        if stands_at(word, "="@, j) {
            assert(word.subrange(j, j + 1)[0] == "="@[0]);
        }
    }
    match found(word, "="@) {
        Some(q) => {
            assert forall|j: int| #![trigger word[j]] 0 <= j < q implies word[j] != '=' by {
                assert(!stands_at(word, "="@, j));
            }
        },
        None => {
            assert forall|j: int| #![trigger word[j]] 0 <= j < word.len() implies word[j]
                != '=' by {
                assert(!stands_at(word, "="@, j));
            }
        },
    }
}

/// The changed registers of a line are named by the words with an equals sign,
/// each by what stands before the first one.
pub proof fn law_changed_registers_are_the_assigned_words(s: Seq<char>, start: int, name: Seq<char>)
    requires
        0 <= start,
    ensures
        names_from(s, start).contains(name) <==> exists|a: int, b: int, q: int|
            #![trigger is_word(s, start, a, b), is_assigned(s, a, b, q)]
            is_word(s, start, a, b) && is_assigned(s, a, b, q) && name == s.subrange(a, q),
    decreases s.len() - start,
{
    if start < s.len() {
        if is_white(s[start]) {
            law_changed_registers_are_the_assigned_words(s, start + 1, name);
            assert forall|a: int, b: int| #[trigger] is_word(s, start, a, b) == is_word(
                s,
                start + 1,
                a,
                b,
            ) by {
                if is_word(s, start, a, b) {
                    assert(!is_white(s[a]));
                }
            }
            assert(names_from(s, start) == names_from(s, start + 1));
            if names_from(s, start).contains(name) {
                let (a, b, q) = choose|a: int, b: int, q: int|
                    #![trigger is_word(s, start + 1, a, b), is_assigned(s, a, b, q)]
                    is_word(s, start + 1, a, b) && is_assigned(s, a, b, q) && name == s.subrange(
                        a,
                        q,
                    );
                assert(is_word(s, start, a, b) && is_assigned(s, a, b, q));
            }
        } else {
            lemma_word_end(s, start);
            lemma_word_end(s, start + 1);
            let end = word_end(s, start);
            let word = s.subrange(start, end);
            let rest = names_from(s, end);
            let all = names_from(s, start);
            law_changed_registers_are_the_assigned_words(s, end, name);
            lemma_equals(word);
            assert(is_word(s, start, start, end));
            assert forall|a: int, b: int| #[trigger] is_word(s, start, a, b) == (is_word(
                s,
                end,
                a,
                b,
            ) || a == start && b == end) by {
                if is_word(s, start, a, b) {
                    assert(!is_white(s[a]));
                    if a == start {
                        if b < end {
                            assert(!is_white(s[b]));
                        }
                        if end < b {
                            assert(!is_white(s[end]));
                        }
                    } else if a < end {
                        assert(!is_white(s[a - 1]));
                    } else if a == end {
                        assert(is_white(s[end]));
                    }
                }
                if is_word(s, end, a, b) {
                    assert(!is_white(s[a]));
                }
            }
            match found(word, "="@) {
                Some(eq) => {
                    let q = start + eq;
                    assert(word[eq] == s[q]);
                    assert(is_assigned(s, start, end, q)) by {
                        assert forall|j: int| #![trigger s[j]] start <= j < q implies s[j]
                            != '=' by {
                            assert(word[j - start] == s[j]);
                        }
                    }
                    assert(word.take(eq) =~= s.subrange(start, q));
                    assert(all == seq![word.take(eq)] + rest);
                    assert(all[0] == word.take(eq));
                    assert forall|q2: int| #[trigger] is_assigned(s, start, end, q2) implies q2
                        == q by {
                        if q2 < q {
                            assert(s[q2] != '=');
                        }
                        if q < q2 {
                            assert(s[q] != '=');
                        }
                    }
                },
                None => {
                    assert(all == rest);
                    assert forall|q2: int| !#[trigger] is_assigned(s, start, end, q2) by {
                        if is_assigned(s, start, end, q2) {
                            assert(word[q2 - start] == s[q2]);
                        }
                    }
                },
            }
            if rest.contains(name) {
                let w = choose|w: int| 0 <= w < rest.len() && rest[w] == name;
                if found(word, "="@) is Some {
                    assert(all[w + 1] == name);
                }
                let (a, b, q) = choose|a: int, b: int, q: int|
                    #![trigger is_word(s, end, a, b), is_assigned(s, a, b, q)]
                    is_word(s, end, a, b) && is_assigned(s, a, b, q) && name == s.subrange(a, q);
                assert(is_word(s, start, a, b) && is_assigned(s, a, b, q));
            } else if all.contains(name) {
                let w = choose|w: int| 0 <= w < all.len() && all[w] == name;
                if w > 0 {
                    assert(rest[w - 1] == name);
                }
                let q = start + found(word, "="@)->0;
                assert(is_word(s, start, start, end) && is_assigned(s, start, end, q));
            }
            if exists|a: int, b: int, q: int|
                #![trigger is_word(s, start, a, b), is_assigned(s, a, b, q)]
                is_word(s, start, a, b) && is_assigned(s, a, b, q) && name == s.subrange(a, q) {
                let (a, b, q) = choose|a: int, b: int, q: int|
                    #![trigger is_word(s, start, a, b), is_assigned(s, a, b, q)]
                    is_word(s, start, a, b) && is_assigned(s, a, b, q) && name == s.subrange(a, q);
                if a == start && b == end {
                    assert(is_assigned(s, start, end, q));
                    assert(all[0] == name);
                } else {
                    assert(is_word(s, end, a, b) && is_assigned(s, a, b, q));
                    let w = choose|w: int| 0 <= w < rest.len() && rest[w] == name;
                    assert(rest.contains(name));
                }
            }
        }
    }
}

/// The general registers are named by their numbers.
pub proof fn law_registers_are_named_by_number(r: u8)
    requires
        r < 31,
    ensures
        reg_name(r) == Some("X"@ + decimal_text(r as u64)),
{
    reveal_strlit("X");
    reveal_with_fuel(number_text, 3);
    if r == 0 {
        reveal_strlit("X0");
        assert("X0"@ =~= "X"@ + decimal_text(0));
    }
    if r == 1 {
        reveal_strlit("X1");
        assert("X1"@ =~= "X"@ + decimal_text(1));
    }
    if r == 2 {
        reveal_strlit("X2");
        assert("X2"@ =~= "X"@ + decimal_text(2));
    }
    if r == 3 {
        reveal_strlit("X3");
        assert("X3"@ =~= "X"@ + decimal_text(3));
    }
    if r == 4 {
        reveal_strlit("X4");
        assert("X4"@ =~= "X"@ + decimal_text(4));
    }
    if r == 5 {
        reveal_strlit("X5");
        assert("X5"@ =~= "X"@ + decimal_text(5));
    }
    if r == 6 {
        reveal_strlit("X6");
        assert("X6"@ =~= "X"@ + decimal_text(6));
    }
    if r == 7 {
        reveal_strlit("X7");
        assert("X7"@ =~= "X"@ + decimal_text(7));
    }
    if r == 8 {
        reveal_strlit("X8");
        assert("X8"@ =~= "X"@ + decimal_text(8));
    }
    if r == 9 {
        reveal_strlit("X9");
        assert("X9"@ =~= "X"@ + decimal_text(9));
    }
    if r == 10 {
        reveal_strlit("X10");
        assert("X10"@ =~= "X"@ + decimal_text(10));
    }
    if r == 11 {
        reveal_strlit("X11");
        assert("X11"@ =~= "X"@ + decimal_text(11));
    }
    if r == 12 {
        reveal_strlit("X12");
        assert("X12"@ =~= "X"@ + decimal_text(12));
    }
    if r == 13 {
        reveal_strlit("X13");
        assert("X13"@ =~= "X"@ + decimal_text(13));
    }
    if r == 14 {
        reveal_strlit("X14");
        assert("X14"@ =~= "X"@ + decimal_text(14));
    }
    if r == 15 {
        reveal_strlit("X15");
        assert("X15"@ =~= "X"@ + decimal_text(15));
    }
    if r == 16 {
        reveal_strlit("X16");
        assert("X16"@ =~= "X"@ + decimal_text(16));
    }
    if r == 17 {
        reveal_strlit("X17");
        assert("X17"@ =~= "X"@ + decimal_text(17));
    }
    if r == 18 {
        reveal_strlit("X18");
        assert("X18"@ =~= "X"@ + decimal_text(18));
    }
    if r == 19 {
        reveal_strlit("X19");
        assert("X19"@ =~= "X"@ + decimal_text(19));
    }
    if r == 20 {
        reveal_strlit("X20");
        assert("X20"@ =~= "X"@ + decimal_text(20));
    }
    if r == 21 {
        reveal_strlit("X21");
        assert("X21"@ =~= "X"@ + decimal_text(21));
    }
    if r == 22 {
        reveal_strlit("X22");
        assert("X22"@ =~= "X"@ + decimal_text(22));
    }
    if r == 23 {
        reveal_strlit("X23");
        assert("X23"@ =~= "X"@ + decimal_text(23));
    }
    if r == 24 {
        reveal_strlit("X24");
        assert("X24"@ =~= "X"@ + decimal_text(24));
    }
    if r == 25 {
        reveal_strlit("X25");
        assert("X25"@ =~= "X"@ + decimal_text(25));
    }
    if r == 26 {
        reveal_strlit("X26");
        assert("X26"@ =~= "X"@ + decimal_text(26));
    }
    if r == 27 {
        reveal_strlit("X27");
        assert("X27"@ =~= "X"@ + decimal_text(27));
    }
    if r == 28 {
        reveal_strlit("X28");
        assert("X28"@ =~= "X"@ + decimal_text(28));
    }
    if r == 29 {
        reveal_strlit("X29");
        assert("X29"@ =~= "X"@ + decimal_text(29));
    }
    if r == 30 {
        reveal_strlit("X30");
        assert("X30"@ =~= "X"@ + decimal_text(30));
    }
}

// ---------------------------------------------------------------------------
// Patterns
// ---------------------------------------------------------------------------

/// Characters as the bytes they are written with.
pub open spec fn as_bytes(s: Seq<char>) -> Seq<u8> {
    s.map_values(|c: char| c as u8)
}

proof fn lemma_digit(n: u8)
    requires
        n < 16,
    ensures
        nibble(hex_digit(n) as u8) == Some(n),
{
}

proof fn lemma_hex_text(bytes: Seq<u8>, i: int)
    requires
        0 <= i < bytes.len(),
    ensures
        hex_text(bytes).len() == 2 * bytes.len(),
        hex_text(bytes)[2 * i] == hex_digit(bytes[i] / 16),
        hex_text(bytes)[2 * i + 1] == hex_digit(bytes[i] % 16),
    decreases bytes.len(),
{
    let rest = bytes.drop_last();
    if rest.len() > 0 {
        lemma_hex_text(
            rest,
            if i < rest.len() {
                i
            } else {
                0
            },
        );
    } else {
        assert(hex_text(rest) =~= Seq::empty());
    }
}

/// A pattern written out in hexadecimal reads back as the bytes it shows.
pub proof fn law_patterns_read_back(bytes: Seq<u8>)
    ensures
        request::all_hex(as_bytes(hex_text(bytes))),
        hex_bytes(as_bytes(hex_text(bytes))) == bytes,
{
    let digits = as_bytes(hex_text(bytes));
    if bytes.len() > 0 {
        lemma_hex_text(bytes, 0);
    }
    assert(digits.len() == 2 * bytes.len());
    assert forall|i: int| 0 <= i < bytes.len() implies nibble(digits[2 * i]) == Some(
        #[trigger] bytes[i] / 16,
    ) && nibble(digits[2 * i + 1]) == Some(bytes[i] % 16) by {
        lemma_hex_text(bytes, i);
        lemma_digit(bytes[i] / 16);
        lemma_digit(bytes[i] % 16);
    }
    assert forall|k: int| #![trigger digits[k]] 0 <= k < digits.len() implies nibble(
        digits[k],
    ) is Some by {
        let i = k / 2;
        assert(nibble(digits[2 * i]) == Some(bytes[i] / 16));
        assert(k == 2 * i || k == 2 * i + 1);
    }
    assert(hex_bytes(digits) =~= bytes) by {
        assert forall|i: int| 0 <= i < bytes.len() implies hex_bytes(digits)[i] == bytes[i] by {
            assert(nibble(digits[2 * i]) == Some(bytes[i] / 16));
            assert(bytes[i] / 16 * 16 + bytes[i] % 16 == bytes[i]);
        }
    }
}

/// White space in a pattern does not matter, and nothing else is left out.
pub proof fn law_spaces_in_a_pattern_do_not_matter(a: Seq<u8>, b: Seq<u8>)
    ensures
        solid(a + b) == solid(a) + solid(b),
        (forall|i: int| #![trigger b[i]] 0 <= i < b.len() ==> is_space(b[i])) ==> solid(
            b,
        ).len() == 0,
        (forall|i: int| #![trigger b[i]] 0 <= i < b.len() ==> !is_space(b[i])) ==> solid(b) == b,
    decreases b.len(),
{
    if b.len() == 0 {
        assert(a + b =~= a);
    } else {
        let rest = b.drop_last();
        law_spaces_in_a_pattern_do_not_matter(a, rest);
        assert((a + b).drop_last() =~= a + rest);
        assert((a + b).last() == b.last());
        assert(solid(a + b) =~= solid(a) + solid(b));
        assert(rest.push(b.last()) =~= b);
        assert(forall|i: int| 0 <= i < rest.len() ==> rest[i] == b[i]);
        if forall|i: int| #![trigger b[i]] 0 <= i < b.len() ==> is_space(b[i]) {
            assert(forall|i: int| #![trigger rest[i]] 0 <= i < rest.len() ==> is_space(rest[i]));
            assert(is_space(b[b.len() - 1]));
        }
        if forall|i: int| #![trigger b[i]] 0 <= i < b.len() ==> !is_space(b[i]) {
            assert(forall|i: int| #![trigger rest[i]] 0 <= i < rest.len() ==> !is_space(rest[i]));
            assert(!is_space(b[b.len() - 1]));
        }
    }
}

/// White space is blank, tab, line feed, form feed and carriage return; no digit
/// is white space, and digits of either case have the same value.
pub proof fn law_digits_are_not_spaces(b: u8)
    ensures
        is_space(b) <==> b as char == ' ' || b as char == '\t' || b as char == '\n' || b as char
            == '\x0c' || b as char == '\r',
        nibble(b) is Some ==> !is_space(b),
        'a' <= b as char <= 'f' ==> nibble(b) is Some && nibble(b) == nibble((b - 32) as u8),
        nibble(b) is Some <==> is_hex_char(b as char),
{
}

// ---------------------------------------------------------------------------
// Chunks
// ---------------------------------------------------------------------------

proof fn lemma_break(data: Seq<u8>, pos: int)
    requires
        0 <= pos <= data.len(),
    ensures
        pos <= line_break(data, pos) <= data.len(),
        line_break(data, pos) < data.len() ==> data[line_break(data, pos)] == NEWLINE,
        forall|j: int| #![trigger data[j]] pos <= j < line_break(data, pos) ==> data[j] != NEWLINE,
    decreases data.len() - pos,
{
    if pos < data.len() && data[pos] != NEWLINE {
        lemma_break(data, pos + 1);
    }
}

/// The first line that starts behind a byte starts at `start`.
pub open spec fn next_line_starts(data: Seq<u8>, from: int, start: int) -> bool {
    &&& from < start < data.len()
    &&& data[start - 1] == NEWLINE
    &&& forall|j: int| #![trigger data[j]] from <= j < start - 1 ==> data[j] != NEWLINE
}

/// A chunk starts with the trace, or with the first line that starts behind the
/// first byte of a share; all shares are of the same size.
pub proof fn law_chunks_start_behind_their_shares(data: Seq<u8>, n: int, i: int, start: int)
    requires
        0 < n,
        1 <= i <= n,
    ensures
        chunk_starts(data, n, i).contains(start) <==> start == 0 || exists|k: int|
            1 <= k < i && #[trigger] next_line_starts(data, k * (data.len() as int / n), start),
        1 <= chunk_starts(data, n, i).len() <= i,
    decreases i,
{
    let q = data.len() as int / n;
    let all = chunk_starts(data, n, i);
    if i == 1 {
        assert(all[0] == 0);
    } else {
        law_chunks_start_behind_their_shares(data, n, i - 1, start);
        let before = chunk_starts(data, n, i - 1);
        let raw = (i - 1) * q;
        assert(0 <= raw <= data.len()) by (nonlinear_arith)
            requires
                q == data.len() as int / n,
                raw == (i - 1) * q,
                0 < n,
                1 <= i <= n,
                data.len() >= 0,
        ;
        lemma_break(data, raw);
        let at = next_start(data, raw);
        assert(next_line_starts(data, raw, start) <==> at == start && start < data.len()) by {
            let brk = line_break(data, raw);
            if next_line_starts(data, raw, start) {
                if brk < start - 1 {
                    assert(data[brk] != NEWLINE);
                }
                if start - 1 < brk {
                    assert(data[start - 1] != NEWLINE);
                }
            }
        }
        if before.contains(start) {
            let w = choose|w: int| 0 <= w < before.len() && before[w] == start;
            assert(all[w] == start);
            if start != 0 {
                let k = choose|k: int|
                    1 <= k < i - 1 && #[trigger] next_line_starts(data, k * q, start);
                assert(next_line_starts(data, k * q, start));
            }
        }
        if at < data.len() {
            if at != before.last() {
                assert(all[all.len() - 1] == at);
            } else if at == start {
                assert(before[before.len() - 1] == at);
            }
        }
        if all.contains(start) && !before.contains(start) {
            let w = choose|w: int| 0 <= w < all.len() && all[w] == start;
            if w < before.len() {
                assert(before[w] == start);
            }
            assert(next_line_starts(data, (i - 1) * q, start));
        }
        if exists|k: int| 1 <= k < i && #[trigger] next_line_starts(data, k * q, start) {
            let k = choose|k: int| 1 <= k < i && #[trigger] next_line_starts(data, k * q, start);
            if k == i - 1 {
                assert(at == start);
            } else {
                assert(before.contains(start));
            }
            assert(all.contains(start));
        }
    }
}

// ---------------------------------------------------------------------------
// Sites
// ---------------------------------------------------------------------------

/// The character does not occur in the text.
pub open spec fn lacks(s: Seq<char>, c: char) -> bool {
    forall|i: int| #![trigger s[i]] 0 <= i < s.len() ==> s[i] != c
}

proof fn lemma_first_char(s: Seq<char>, pat: Seq<char>, i: int)
    requires
        stands_at(s, pat, i),
        pat.len() > 0,
    ensures
        s[i] == pat[0],
{
    assert(s.subrange(i, i + pat.len())[0] == s[i]);
}

proof fn lemma_found_at(s: Seq<char>, pat: Seq<char>, i: int)
    requires
        pat.len() > 0,
        stands_at(s, pat, i),
        lacks(s.take(i), pat[0]),
    ensures
        found(s, pat) == Some(i),
{
    law_the_first_place_is_found(s, pat);
    let at = found(s, pat)->0;
    if at < i {
        lemma_first_char(s, pat, at);
        assert(s.take(i)[at] == s[at]);
    }
    if i < at {
        assert(!stands_at(s, pat, i));
    }
}

proof fn lemma_found_last_at(s: Seq<char>, pat: Seq<char>, i: int)
    requires
        pat.len() > 0,
        stands_at(s, pat, i),
        lacks(s.skip(i + 1), pat[0]),
    ensures
        found_last(s, pat) == Some(i),
{
    law_the_last_place_is_found(s, pat);
    let at = found_last(s, pat)->0;
    if at > i {
        lemma_first_char(s, pat, at);
        assert(s.skip(i + 1)[at - i - 1] == s[at]);
    }
    if at < i {
        assert(!stands_at(s, pat, i));
    }
}

proof fn lemma_run(s: Seq<char>, n: int)
    requires
        0 <= n <= s.len(),
        forall|i: int| #![trigger s[i]] 0 <= i < n ==> is_hex_char(s[i]),
        n == s.len() || !is_hex_char(s[n]),
    ensures
        hex_run(s) == n,
    decreases n,
{
    if n > 0 {
        let t = s.skip(1);
        assert forall|i: int| #![trigger t[i]] 0 <= i < n - 1 implies is_hex_char(t[i]) by {
            assert(t[i] == s[i + 1]);
        }
        if n < s.len() {
            assert(t[n - 1] == s[n]);
        }
        assert(is_hex_char(s[0]));
        lemma_run(t, n - 1);
    }
}

/// A line with a module in brackets and a marked offset behind an address shows
/// the module and all digits of the offset.
pub proof fn law_a_marked_line_shows_its_site(
    front: Seq<char>,
    module: Seq<char>,
    address: Seq<char>,
    offset: Seq<char>,
    tail: Seq<char>,
)
    requires
        lacks(front, '['),
        lacks(front, ']'),
        lacks(module, ']'),
        module.len() > 0,
        lacks(address, '!'),
        offset.len() > 0,
        forall|i: int| #![trigger offset[i]] 0 <= i < offset.len() ==> is_hex_char(offset[i]),
        tail.len() == 0 || !is_hex_char(tail[0]),
    ensures
        marked_site(
            front + "["@ + module + "] 0x"@ + address + "!0x"@ + offset + tail,
        ) == Some(module + "+0x"@ + offset),
{
    reveal_strlit("[");
    reveal_strlit("] 0x");
    reveal_strlit("!0x");
    reveal_strlit("!");
    let line = front + "["@ + module + "] 0x"@ + address + "!0x"@ + offset + tail;
    let open = front.len() as int;
    let close = open + 1 + module.len();
    assert(line.subrange(close, close + 4) =~= "] 0x"@);
    assert(lacks(line.take(close), ']')) by {
        assert forall|i: int| #![trigger line.take(close)[i]] 0 <= i < close implies line.take(
            close,
        )[i] != ']' by {
            if i < open {
                assert(line[i] == front[i]);
            } else if i > open {
                assert(line[i] == module[i - open - 1]);
            }
        }
    }
    lemma_found_at(line, "] 0x"@, close);
    let head = line.take(close);
    assert(head.subrange(open, open + 1) =~= "["@);
    assert(head.take(open) =~= front);
    lemma_found_at(head, "["@, open);
    assert(line.subrange(open + 1, close) =~= module);
    let rest = line.skip(close + 4);
    let mark = address.len() as int;
    assert(rest =~= address + "!0x"@ + offset + tail);
    assert(rest.subrange(mark, mark + 1) =~= "!"@);
    assert(rest.take(mark) =~= address);
    lemma_found_at(rest, "!"@, mark);
    assert(rest.subrange(mark, mark + 3) =~= "!0x"@);
    let digits = rest.skip(mark + 3);
    assert(digits =~= offset + tail);
    assert forall|i: int| #![trigger digits[i]] 0 <= i < offset.len() implies is_hex_char(
        digits[i],
    ) by {
        assert(digits[i] == offset[i]);
    }
    lemma_run(digits, offset.len() as int);
    assert(rest.subrange(mark + 3, mark + 3 + offset.len()) =~= offset);
}

/// A line with module and offset in one bracket shows both.
pub proof fn law_a_bracketed_line_shows_its_site(
    front: Seq<char>,
    module: Seq<char>,
    offset: Seq<char>,
    tail: Seq<char>,
)
    requires
        lacks(front, ']'),
        lacks(module, '['),
        lacks(module, ']'),
        module.len() > 0,
        forall|i: int| #![trigger offset[i]] 0 <= i < offset.len() ==> is_hex_char(offset[i]),
    ensures
        bracketed_site(front + "["@ + module + " 0x"@ + offset + "] ["@ + tail) == Some(
            module + "+0x"@ + offset,
        ),
{
    reveal_strlit("[");
    reveal_strlit(" 0x");
    reveal_strlit("] [");
    let line = front + "["@ + module + " 0x"@ + offset + "] ["@ + tail;
    let open = front.len() as int;
    let inside = module + " 0x"@ + offset;
    let close = open + 1 + inside.len();
    assert(line =~= front + "["@ + inside + "] ["@ + tail);
    assert(line.subrange(close, close + 3) =~= "] ["@);
    assert forall|i: int| #![trigger inside[i]] 0 <= i < inside.len() implies inside[i] != ']'
        && inside[i] != '[' by {
        if i < module.len() {
            assert(inside[i] == module[i]);
        } else if i >= module.len() + 3 {
            assert(inside[i] == offset[i - module.len() - 3]);
        } else {
            assert(inside[i] == " 0x"@[i - module.len()]);
        }
    }
    assert(lacks(line.take(close), ']')) by {
        assert forall|i: int| #![trigger line.take(close)[i]] 0 <= i < close implies line.take(
            close,
        )[i] != ']' by {
            if i < open {
                assert(line[i] == front[i]);
            } else if i > open {
                assert(line[i] == inside[i - open - 1]);
            }
        }
    }
    lemma_found_at(line, "] ["@, close);
    let head = line.take(close);
    assert(head.subrange(open, open + 1) =~= "["@);
    assert(head.skip(open + 1) =~= inside);
    lemma_found_last_at(head, "["@, open);
    assert(line.subrange(open + 1, close) =~= inside);
    let gap = module.len() as int;
    assert(inside.subrange(gap, gap + 3) =~= " 0x"@);
    assert(lacks(inside.skip(gap + 1), ' ')) by {
        let t = inside.skip(gap + 1);
        assert forall|i: int| #![trigger t[i]] 0 <= i < t.len() implies t[i] != ' ' by {
            if i >= 2 {
                assert(t[i] == offset[i - 2]);
            } else {
                assert(t[i] == " 0x"@[i + 1]);
            }
        }
    }
    lemma_found_last_at(inside, " 0x"@, gap);
    assert(inside.skip(gap + 3) =~= offset);
    assert(inside.take(gap) =~= module);
    lemma_run(offset, offset.len() as int);
}

} // verus!
