//! Requests and results.

use crate::error::{invalid, is_invalid, TraceError};
use vstd::prelude::*;
use vstd::string::*;

verus! {

/// Most matches on a page.
pub const MAX_PAGE_SIZE: u32 = 200;

/// Longest pattern in bytes.
pub const MAX_PATTERN_SIZE: usize = 67108864;

/// Largest response in bytes.
pub const MAX_PUBLIC_RESPONSE_BYTES: usize = 8388608;

/// What a match adds to a response besides its bytes, at most.
pub const PER_MATCH_ENVELOPE: usize = 512;

/// What a response holds besides its matches, at most.
pub const RESPONSE_BASE_ENVELOPE: usize = 512;

#[derive(Debug, Clone, Copy, PartialEq, Eq, Structural)]
pub enum MemorySearchRw {
    Read,
    Write,
}

/// What to search for and which part of the result to return.
#[derive(Debug, Clone, PartialEq, Eq)]
pub struct MemorySearchOptions {
    pub pattern: Vec<u8>,
    /// Lines, both ends included.
    pub seq_range: Option<(u32, u32)>,
    /// Addresses, the end excluded.
    pub memory_range: Option<(u64, u64)>,
    pub offset: u32,
    pub limit: u32,
}

/// A match with its bytes.
#[derive(Debug, Clone, PartialEq, Eq)]
pub struct MemorySearchMatch {
    pub address: u64,
    pub seq: u32,
    pub size: u32,
    pub bytes: Vec<u8>,
    pub rw: MemorySearchRw,
}

/// A page of matches.
#[derive(Debug, Clone, PartialEq, Eq)]
pub struct MemorySearchResult {
    pub matches: Vec<MemorySearchMatch>,
    pub total: u32,
    pub offset: u32,
    pub limit: u32,
    pub has_more: bool,
}

/// A match without its bytes.
#[derive(Debug, Clone, Copy, PartialEq, Eq, Structural)]
pub struct MemorySearchOccurrence {
    pub address: u64,
    pub seq: u32,
    pub size: u32,
    pub rw: MemorySearchRw,
}

/// A page of matches without their bytes.
#[derive(Debug, Clone, PartialEq, Eq)]
pub struct MemorySearchOccurrenceResult {
    /// Derived from trace, pattern, filters and format; no path enters it.
    pub content_identity: String,
    pub matches: Vec<MemorySearchOccurrence>,
    pub total: u32,
    pub offset: u32,
    pub limit: u32,
    pub has_more: bool,
}

/// Where and when the pattern came to stand in memory.
#[derive(Debug, Clone, Copy, PartialEq, Eq, Structural)]
pub struct MemoryOccurrence {
    pub address: u64,
    pub seq: u32,
    pub rw: MemorySearchRw,
}

/// A page of the complete result.
#[derive(Debug)]
pub struct CachePage {
    pub total: u32,
    pub matches: Vec<MemoryOccurrence>,
    pub has_more: bool,
}

// ---------------------------------------------------------------------------
// Patterns
// ---------------------------------------------------------------------------

/// Space, tab, line feed, form feed or carriage return.
pub open spec fn is_space(b: u8) -> bool {
    b == 32 || b == 9 || b == 10 || b == 12 || b == 13
}

/// The value of a hexadecimal digit.
pub open spec fn nibble(b: u8) -> Option<u8> {
    if 48 <= b <= 57 {
        Some((b - 48) as u8)
    } else if 97 <= b <= 102 {
        Some((b - 87) as u8)
    } else if 65 <= b <= 70 {
        Some((b - 55) as u8)
    } else {
        None
    }
}

/// The bytes that are no white space.
pub open spec fn solid(text: Seq<u8>) -> Seq<u8>
    decreases text.len(),
{
    if text.len() == 0 {
        Seq::empty()
    } else {
        let before = solid(text.drop_last());
        if is_space(text.last()) {
            before
        } else {
            before.push(text.last())
        }
    }
}

pub open spec fn all_hex(digits: Seq<u8>) -> bool {
    forall|i: int| #![trigger digits[i]] 0 <= i < digits.len() ==> nibble(digits[i]) is Some
}

/// The bytes that pairs of digits stand for, the high digit first.
pub open spec fn hex_bytes(digits: Seq<u8>) -> Seq<u8> {
    Seq::new(
        digits.len() / 2,
        |i: int| (nibble(digits[2 * i])->0 * 16 + nibble(digits[2 * i + 1])->0) as u8,
    )
}

/// Words of the errors.
pub open spec fn not_hex_text() -> Seq<char> {
    "pattern must contain only hexadecimal digits and whitespace"@
}

pub open spec fn odd_text() -> Seq<char> {
    "pattern must contain a non-empty even number of hexadecimal digits"@
}

pub open spec fn too_long_text() -> Seq<char> {
    "pattern exceeds the 67108864 byte limit"@
}

/// Value of a hexadecimal digit.
pub fn hex_nibble(byte: u8) -> (r: Option<u8>)
    ensures
        r == nibble(byte),
{
    if 48 <= byte && byte <= 57 {
        Some(byte - 48)
    } else if 97 <= byte && byte <= 102 {
        Some(byte - 87)
    } else if 65 <= byte && byte <= 70 {
        Some(byte - 55)
    } else {
        None
    }
}

/// Reads a pattern written as hexadecimal digits, white space between them.
pub fn parse_pattern_hex(input: &str) -> (r: Result<Vec<u8>, TraceError>)
    ensures
        ({
            let digits = solid(input.spec_bytes());
            match r {
                Ok(pattern) => all_hex(digits) && digits.len() > 0 && digits.len() % 2 == 0
                    && digits.len() / 2 <= MAX_PATTERN_SIZE && pattern@ == hex_bytes(digits),
                Err(e) => if !all_hex(digits) {
                    is_invalid(e, not_hex_text())
                } else if digits.len() == 0 || digits.len() % 2 != 0 {
                    is_invalid(e, odd_text())
                } else {
                    digits.len() / 2 > MAX_PATTERN_SIZE && is_invalid(e, too_long_text())
                },
            }
        }),
{
    let text = input.as_bytes();
    let ghost all = solid(text@);
    let mut digits: Vec<u8> = Vec::with_capacity(text.len());
    let mut i: usize = 0;
    assert(text@.take(0) =~= Seq::empty());
    while i < text.len()
        invariant
            i <= text@.len(),
            text@ == input.spec_bytes(),
            all == solid(text@),
            digits@ == solid(text@.take(i as int)),
            all_hex(digits@),
        decreases text@.len() - i,
    {
        let byte: u8 = text[i];
        assert(text@.take(i + 1).drop_last() =~= text@.take(i as int));
        if !(byte == 32 || byte == 9 || byte == 10 || byte == 12 || byte == 13) {
            if hex_nibble(byte).is_none() {
                proof {
                    lemma_solid_prefix(text@, i + 1);
                    let k = digits@.len() as int;
                    assert(solid(text@.take(i + 1))[k] == byte);
                    assert(nibble(all[k]) is None);
                }
                return Err(
                    invalid("pattern must contain only hexadecimal digits and whitespace"),
                );
            }
            digits.push(byte);
        }
        i += 1;
    }
    assert(text@.take(text@.len() as int) =~= text@);
    if digits.len() == 0 || digits.len() % 2 != 0 {
        return Err(
            invalid("pattern must contain a non-empty even number of hexadecimal digits"),
        );
    }
    if digits.len() / 2 > MAX_PATTERN_SIZE {
        return Err(invalid("pattern exceeds the 67108864 byte limit"));
    }
    let n: usize = digits.len() / 2;
    let mut pattern: Vec<u8> = Vec::with_capacity(n);
    let mut k: usize = 0;
    while k < n
        invariant
            k <= n <= MAX_PATTERN_SIZE,
            n == digits@.len() / 2,
            digits@ == all,
            all_hex(digits@),
            pattern@ =~= hex_bytes(digits@).take(k as int),
        decreases n - k,
    {
        assert(nibble(digits@[2 * k]) is Some && nibble(digits@[2 * k + 1]) is Some);
        if let Some(high) = hex_nibble(digits[2 * k]) {
            if let Some(low) = hex_nibble(digits[2 * k + 1]) {
                pattern.push(high * 16 + low);
            }
        }
        k += 1;
    }
    assert(pattern@ =~= hex_bytes(all));
    Ok(pattern)
}

/// What comes later does not change the digits found so far.
proof fn lemma_solid_prefix(text: Seq<u8>, n: int)
    requires
        0 <= n <= text.len(),
    ensures
        solid(text.take(n)).len() <= solid(text).len(),
        solid(text.take(n)) == solid(text).take(solid(text.take(n)).len() as int),
    decreases text.len() - n,
{
    if n == text.len() {
        assert(text.take(n) =~= text);
        assert(solid(text) =~= solid(text).take(solid(text).len() as int));
    } else {
        lemma_solid_prefix(text, n + 1);
        assert(text.take(n + 1).drop_last() =~= text.take(n));
        let a = solid(text.take(n));
        assert(a =~= solid(text).take(a.len() as int));
    }
}

// ---------------------------------------------------------------------------
// Validation
// ---------------------------------------------------------------------------

/// The first thing that is wrong with a request.
pub open spec fn options_fault(o: MemorySearchOptions) -> Option<Seq<char>> {
    if o.pattern@.len() == 0 {
        Some("pattern must not be empty"@)
    } else if o.pattern@.len() > MAX_PATTERN_SIZE {
        Some(too_long_text())
    } else if o.limit == 0 || o.limit > MAX_PAGE_SIZE {
        Some("limit must be between 1 and 200"@)
    } else if (o.seq_range matches Some((start, end)) && start > end) {
        Some("seq range start exceeds end"@)
    } else if (o.memory_range matches Some((start, end)) && start >= end) {
        Some("memory range must be non-empty and half-open"@)
    } else {
        None
    }
}

/// Refuses a request that makes no sense.
pub fn validate_options(options: &MemorySearchOptions) -> (r: Result<(), TraceError>)
    ensures
        match options_fault(*options) {
            None => r is Ok,
            Some(text) => r matches Err(e) && is_invalid(e, text),
        },
{
    if options.pattern.len() == 0 {
        return Err(invalid("pattern must not be empty"));
    }
    if options.pattern.len() > MAX_PATTERN_SIZE {
        return Err(invalid("pattern exceeds the 67108864 byte limit"));
    }
    if options.limit == 0 || options.limit > MAX_PAGE_SIZE {
        return Err(invalid("limit must be between 1 and 200"));
    }
    if let Some((start, end)) = options.seq_range {
        if start > end {
            return Err(invalid("seq range start exceeds end"));
        }
    }
    if let Some((start, end)) = options.memory_range {
        if start >= end {
            return Err(invalid("memory range must be non-empty and half-open"));
        }
    }
    Ok(())
}

/// Upper bound on the size of a response with a full page.
pub open spec fn response_bound(o: MemorySearchOptions) -> int {
    (o.pattern@.len() * 2 + PER_MATCH_ENVELOPE) * o.limit + RESPONSE_BASE_ENVELOPE
}

/// What is wrong with the size of a response: it cannot be counted, or it is
/// over the limit.
pub open spec fn budget_fault(o: MemorySearchOptions) -> Option<Seq<char>> {
    if o.pattern@.len() * 2 + PER_MATCH_ENVELOPE > usize::MAX || response_bound(o) > usize::MAX {
        Some("search response is too large"@)
    } else if response_bound(o) > MAX_PUBLIC_RESPONSE_BYTES {
        Some(
            "search response exceeds the 8388608 byte limit; use the occurrence-only adapter for large patterns"@,
        )
    } else {
        None
    }
}

/// Refuses a request whose response could grow too large. Every match repeats
/// the pattern in hexadecimal.
pub fn validate_public_response_budget(options: &MemorySearchOptions) -> (r: Result<(), TraceError>)
    ensures
        match budget_fault(*options) {
            None => r is Ok,
            Some(text) => r matches Err(e) && is_invalid(e, text),
        },
{
    let len: usize = options.pattern.len();
    let per_match: usize = match len.checked_mul(2) {
        Some(size) => match size.checked_add(PER_MATCH_ENVELOPE) {
            Some(size) => size,
            None => {
                return Err(invalid("search response is too large"));
            },
        },
        None => {
            return Err(invalid("search response is too large"));
        },
    };
    let maximum: usize = match per_match.checked_mul(options.limit as usize) {
        Some(size) => match size.checked_add(RESPONSE_BASE_ENVELOPE) {
            Some(size) => size,
            None => {
                return Err(invalid("search response is too large"));
            },
        },
        None => {
            return Err(invalid("search response is too large"));
        },
    };
    if maximum > MAX_PUBLIC_RESPONSE_BYTES {
        return Err(
            invalid(
                "search response exceeds the 8388608 byte limit; use the occurrence-only adapter for large patterns",
            ),
        );
    }
    Ok(())
}

} // verus!
