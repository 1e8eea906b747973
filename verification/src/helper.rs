//! Requests to the search helper, which gets its files as open descriptors.

use crate::engine::registers::{parse_hex, parsed_hex};
use crate::error::{invalid, is_invalid, TraceError};
use crate::memory_search::request::{MemorySearchOptions, MAX_PATTERN_SIZE};
use crate::staging::is_digit;
use crate::text::{chars_of, decimal_text, push_decimal, push_text};
use vstd::prelude::*;

verus! {

/// Longest request in bytes.
pub const MAX_CONTROL_BYTES: usize = 1048576;

// ---------------------------------------------------------------------------
// Descriptors
// ---------------------------------------------------------------------------

/// What is wrong with a descriptor argument.
#[derive(Debug, Clone, Copy, PartialEq, Eq, Structural)]
pub enum FdArgError {
    /// The argument is missing, or nothing follows it.
    Missing,
    /// What follows is not a number that fits.
    Invalid,
    Negative,
}

/// The argument after the first one of that name from `i` on.
pub open spec fn value_after(args: Seq<String>, name: Seq<char>, i: int) -> Option<Seq<char>>
    decreases args.len() - i,
{
    if i < 0 || i + 1 >= args.len() {
        None
    } else if args[i]@ == name {
        Some(args[i + 1]@)
    } else {
        value_after(args, name, i + 1)
    }
}

/// The number that the first `n` digits write out.
pub open spec fn digits_value(s: Seq<char>, n: int) -> int
    decreases n,
{
    if n <= 0 {
        0
    } else {
        digits_value(s, n - 1) * 10 + (s[n - 1] as int - '0' as int)
    }
}

/// A number in decimal; a sign may stand before it.
pub open spec fn parsed_number(s: Seq<char>) -> Option<int> {
    let negative = s.len() > 0 && s[0] == '-';
    let digits = if s.len() > 0 && (s[0] == '-' || s[0] == '+') {
        s.skip(1)
    } else {
        s
    };
    if crate::staging::all_digits(digits) {
        let v = digits_value(digits, digits.len() as int);
        Some(
            if negative {
                -v
            } else {
                v
            },
        )
    } else {
        None
    }
}

/// The descriptor that an argument names.
pub open spec fn parsed_fd(value: Seq<char>) -> Result<i32, FdArgError> {
    match parsed_number(value) {
        None => Err(FdArgError::Invalid),
        Some(v) => if v < i32::MIN || v > i32::MAX {
            Err(FdArgError::Invalid)
        } else if v < 0 {
            Err(FdArgError::Negative)
        } else {
            Ok(v as i32)
        },
    }
}

proof fn lemma_digits_value_grows(s: Seq<char>, a: int, b: int)
    requires
        0 <= a <= b <= s.len(),
        forall|i: int| 0 <= i < s.len() ==> is_digit(#[trigger] s[i]),
    ensures
        0 <= digits_value(s, a) <= digits_value(s, b),
    decreases b,
{
    if b > 0 {
        assert(is_digit(s[b - 1]));
        if a < b {
            lemma_digits_value_grows(s, a, b - 1);
        } else {
            lemma_digits_value_grows(s, a - 1, b - 1);
        }
    }
}

fn parse_fd(value: &str) -> (r: Result<i32, FdArgError>)
    ensures
        r == parsed_fd(value@),
{
    let v = chars_of(value);
    let signed: bool = v.len() > 0 && (v[0] == '-' || v[0] == '+');
    let negative: bool = v.len() > 0 && v[0] == '-';
    let first: usize = if signed {
        1
    } else {
        0
    };
    let ghost digits = if signed {
        value@.skip(1)
    } else {
        value@
    };
    if first == v.len() {
        return Err(FdArgError::Invalid);
    }
    let mut i: usize = first;
    while i < v.len()
        invariant
            first <= i <= v@.len(),
            v@ == value@,
            first == 0 || first == 1,
            digits == v@.skip(first as int),
            signed == (v@.len() > 0 && (v@[0] == '-' || v@[0] == '+')),
            first == (if signed {
                1int
            } else {
                0
            }),
            forall|k: int| 0 <= k < i - first ==> is_digit(#[trigger] digits[k]),
        decreases v@.len() - i,
    {
        let c: char = v[i];
        assert(digits[i - first] == c);
        if c < '0' || c > '9' {
            assert(!is_digit(digits[i - first]));
            return Err(FdArgError::Invalid);
        }
        i += 1;
    }
    assert(crate::staging::all_digits(digits));
    let mut number: u64 = 0;
    let mut k: usize = first;
    while k < v.len()
        invariant
            first <= k <= v@.len(),
            v@ == value@,
            digits == v@.skip(first as int),
            crate::staging::all_digits(digits),
            digits == (if signed {
                value@.skip(1)
            } else {
                value@
            }),
            signed == (value@.len() > 0 && (value@[0] == '-' || value@[0] == '+')),
            negative == (value@.len() > 0 && value@[0] == '-'),
            number == digits_value(digits, k - first),
            number <= 0x8000_0000,
        decreases v@.len() - k,
    {
        let c: char = v[k];
        assert(digits[k - first] == c);
        assert(is_digit(digits[k - first]));
        number = number * 10 + (c as u64 - '0' as u64);
        if number > 0x8000_0000 {
            proof {
                lemma_digits_value_grows(digits, k - first + 1, digits.len() as int);
            }
            return Err(FdArgError::Invalid);
        }
        k += 1;
    }
    if negative {
        if number == 0 {
            Ok(0)
        } else {
            Err(FdArgError::Negative)
        }
    } else if number > 0x7FFF_FFFF {
        Err(FdArgError::Invalid)
    } else {
        Ok(number as i32)
    }
}

/// The descriptor after the argument of that name.
pub fn parse_fd_arg(args: &Vec<String>, name: &str) -> (r: Result<i32, FdArgError>)
    ensures
        r == (match value_after(args@, name@, 0) {
            Some(value) => parsed_fd(value),
            None => Err(FdArgError::Missing),
        }),
{
    let wanted = name.to_owned();
    let mut i: usize = 0;
    let n: usize = args.len();
    while i < n && n - i > 1
        invariant
            i <= n,
            n == args@.len(),
            wanted@ == name@,
            value_after(args@, name@, 0) == value_after(args@, name@, i as int),
        decreases n - i,
    {
        if args[i] == wanted {
            return parse_fd(args[i + 1].as_str());
        }
        i += 1;
    }
    Err(FdArgError::Missing)
}

pub open spec fn reserved_text() -> Seq<char> {
    "trace and pattern fds must not use reserved standard descriptors 0, 1, or 2"@
}

pub open spec fn same_fd_text() -> Seq<char> {
    "trace and pattern fds must be different descriptors"@
}

/// Two descriptors that are neither reserved nor the same.
pub fn validate_inherited_fds(trace_fd: i32, pattern_fd: i32) -> (r: Result<(), TraceError>)
    ensures
        if trace_fd < 3 || pattern_fd < 3 {
            r matches Err(e) && is_invalid(e, reserved_text())
        } else if trace_fd == pattern_fd {
            r matches Err(e) && is_invalid(e, same_fd_text())
        } else {
            r is Ok
        },
{
    if trace_fd < 3 || pattern_fd < 3 {
        return Err(
            invalid("trace and pattern fds must not use reserved standard descriptors 0, 1, or 2"),
        );
    }
    if trace_fd == pattern_fd {
        return Err(invalid("trace and pattern fds must be different descriptors"));
    }
    Ok(())
}

// ---------------------------------------------------------------------------
// Requests
// ---------------------------------------------------------------------------

/// `… exceeds … byte limit`
pub open spec fn exceeds_text(label: Seq<char>, max: usize) -> Seq<char> {
    label + " exceeds "@ + decimal_text(max as u64) + " byte limit"@
}

/// Refuses input that is too long.
pub fn check_limit(len: usize, max: usize, label: &str) -> (r: Result<(), TraceError>)
    ensures
        if len > max {
            r matches Err(e) && is_invalid(e, exceeds_text(label@, max))
        } else {
            r is Ok
        },
{
    if len > max {
        let mut text = label.to_owned();
        push_text(&mut text, " exceeds ");
        push_decimal(&mut text, max as u64);
        push_text(&mut text, " byte limit");
        return Err(TraceError::InvalidArgument(text));
    }
    Ok(())
}

/// The text stands after `0x`.
pub open spec fn has_hex_mark(text: Seq<char>) -> bool {
    text.len() >= 2 && text[0] == '0' && (text[1] == 'x' || text[1] == 'X')
}

/// The address that a request writes in hexadecimal, with or without `0x`.
pub open spec fn address_value(text: Seq<char>) -> Option<u64> {
    parsed_hex(
        if has_hex_mark(text) {
            text.skip(2)
        } else {
            text
        },
    )
}

/// The address that a request writes in hexadecimal.
pub fn parse_hex_addr(text: &str) -> (r: Option<u64>)
    ensures
        r == address_value(text@),
{
    let v = chars_of(text);
    if v.len() >= 2 && v[0] == '0' && (v[1] == 'x' || v[1] == 'X') {
        return parse_hex(&v, 2);
    }
    assert(v@.skip(0) =~= v@);
    parse_hex(&v, 0)
}

/// What the helper is asked for besides the pattern. The memory range is given
/// by its start and its size.
#[derive(Debug, Clone, Copy)]
pub struct HelperRequest {
    pub seq_range: Option<(u32, u32)>,
    pub memory_range: Option<(u64, u64)>,
    pub offset: u32,
    pub limit: u32,
}

pub open spec fn empty_pattern_text() -> Seq<char> {
    "pattern fd contains an empty pattern"@
}

pub open spec fn range_overflow_text() -> Seq<char> {
    "memory range address + size overflows u64"@
}

/// What is wrong with a pattern.
pub open spec fn pattern_fault(pattern: Seq<u8>) -> Option<Seq<char>> {
    if pattern.len() > MAX_PATTERN_SIZE {
        Some(exceeds_text("pattern fd"@, MAX_PATTERN_SIZE))
    } else if pattern.len() == 0 {
        Some(empty_pattern_text())
    } else {
        None
    }
}

/// What is wrong with a request, in the order in which it is looked at.
pub open spec fn request_fault(pattern: Seq<u8>, request: HelperRequest) -> Option<Seq<char>> {
    if pattern_fault(pattern) is Some {
        pattern_fault(pattern)
    } else if (request.memory_range matches Some((start, size)) && start + size > u64::MAX) {
        Some(range_overflow_text())
    } else {
        None
    }
}

/// Refuses a pattern that is too long or empty; the request is read only after.
pub fn check_pattern(pattern: &Vec<u8>) -> (r: Result<(), TraceError>)
    ensures
        match pattern_fault(pattern@) {
            Some(text) => r matches Err(e) && is_invalid(e, text),
            None => r is Ok,
        },
{
    match check_limit(pattern.len(), MAX_PATTERN_SIZE, "pattern fd") {
        Ok(_) => {},
        Err(e) => {
            return Err(e);
        },
    }
    if pattern.len() == 0 {
        return Err(invalid("pattern fd contains an empty pattern"));
    }
    Ok(())
}

/// The search that a request asks for.
pub fn helper_options(pattern: Vec<u8>, request: &HelperRequest) -> (r: Result<
    MemorySearchOptions,
    TraceError,
>)
    ensures
        match request_fault(pattern@, *request) {
            Some(text) => r matches Err(e) && is_invalid(e, text),
            None => r matches Ok(o) && o.pattern@ == pattern@ && o.seq_range == request.seq_range
                && o.memory_range == (match request.memory_range {
                Some((start, size)) => Some((start, (start + size) as u64)),
                None => None,
            }) && o.offset == request.offset && o.limit == request.limit,
        },
{
    match check_pattern(&pattern) {
        Ok(_) => {},
        Err(e) => {
            return Err(e);
        },
    }
    let memory_range: Option<(u64, u64)> = match request.memory_range {
        Some((start, size)) => match start.checked_add(size) {
            Some(end) => Some((start, end)),
            None => {
                return Err(invalid("memory range address + size overflows u64"));
            },
        },
        None => None,
    };
    Ok(
        MemorySearchOptions {
            pattern,
            seq_range: request.seq_range,
            memory_range,
            offset: request.offset,
            limit: request.limit,
        },
    )
}

} // verus!
