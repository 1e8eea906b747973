//! The identity of a search, derived from content alone.

use crate::bytes::{hex_text, le32, le64, push_all, push_le32, push_le64, same_bytes, to_hex};
use crate::error::{cache_error, is_cache_error, TraceError};
use crate::foreign;
use crate::memory_search::request::MemorySearchOptions;
use crate::types::TraceFormat;
use vstd::prelude::*;
use vstd::string::*;

verus! {

/// The 32 bytes of a SHA-256 digest.
pub open spec fn digest(data: Seq<u8>) -> Seq<u8> {
    Seq::new(32, |i: int| foreign::sha256_digest(data)[i])
}

/// SHA-256.
pub fn sha256(data: &[u8]) -> (d: [u8; 32])
    ensures
        d@ == digest(data@),
{
    let d = foreign::sha256_bytes(data);
    assert(d@ =~= digest(data@));
    d
}

/// Digest of a whole trace.
pub fn compute_trace_content_hash(data: &[u8]) -> (d: [u8; 32])
    ensures
        d@ == digest(data@),
{
    sha256(data)
}

pub open spec fn trace_changed_text() -> Seq<char> {
    "trace changed during memory search; cache was not published"@
}

/// Refuses a trace whose content is no longer what was hashed.
pub fn ensure_trace_unchanged(data: &[u8], expected_hash: &[u8; 32]) -> (r: Result<(), TraceError>)
    ensures
        if digest(data@) == expected_hash@ {
            r is Ok
        } else {
            r matches Err(e) && is_cache_error(e, trace_changed_text())
        },
{
    let actual = sha256(data);
    if same_bytes(actual.as_slice(), expected_hash.as_slice()) {
        Ok(())
    } else {
        Err(cache_error("trace changed during memory search; cache was not published"))
    }
}

/// `memory-search-v5`: changes whenever results may differ from those of
/// earlier versions.
pub open spec fn compat_version() -> Seq<u8> {
    seq![
        109u8, 101u8, 109u8, 111u8, 114u8, 121u8, 45u8, 115u8, 101u8, 97u8, 114u8, 99u8, 104u8,
        45u8, 118u8, 53u8,
    ]
}

pub(crate) fn push_compat_version(out: &mut Vec<u8>)
    ensures
        final(out)@ == old(out)@ + compat_version(),
{
    let version: [u8; 16] = [
        109, 101, 109, 111, 114, 121, 45, 115, 101, 97, 114, 99, 104, 45, 118, 53,
    ];
    assert(version@ =~= compat_version());
    push_all(out, version.as_slice());
}

pub open spec fn format_byte(format: TraceFormat) -> u8 {
    match format {
        TraceFormat::Unidbg => 0,
        TraceFormat::Gumtrace => 1,
    }
}

pub(crate) fn format_code(format: TraceFormat) -> (b: u8)
    ensures
        b == format_byte(format),
{
    match format {
        TraceFormat::Unidbg => 0,
        TraceFormat::Gumtrace => 1,
    }
}

/// The filters of a request as bytes.
pub open spec fn filter_key(o: MemorySearchOptions) -> Seq<u8> {
    (match o.seq_range {
        Some((start, end)) => seq![1u8] + le32(start) + le32(end),
        None => seq![0u8],
    }) + (match o.memory_range {
        Some((start, end)) => seq![1u8] + le64(start) + le64(end),
        None => seq![0u8],
    })
}

fn write_filter_key(out: &mut Vec<u8>, options: &MemorySearchOptions)
    ensures
        final(out)@ == old(out)@ + filter_key(*options),
{
    let ghost start_bytes = out@;
    match options.seq_range {
        Some((start, end)) => {
            out.push(1);
            push_le32(out, start);
            push_le32(out, end);
        },
        None => {
            out.push(0);
        },
    }
    match options.memory_range {
        Some((start, end)) => {
            out.push(1);
            push_le64(out, start);
            push_le64(out, end);
        },
        None => {
            out.push(0);
        },
    }
    assert(out@ =~= start_bytes + filter_key(*options));
}

/// The bytes whose digest is the identity of a search.
pub open spec fn identity_input(
    trace_hash: Seq<u8>,
    pattern_hash: Seq<u8>,
    format: TraceFormat,
    o: MemorySearchOptions,
) -> Seq<u8> {
    compat_version() + trace_hash + pattern_hash + seq![format_byte(format)] + filter_key(o)
}

/// The identity of a search.
pub open spec fn identity(
    trace_hash: Seq<u8>,
    pattern_hash: Seq<u8>,
    format: TraceFormat,
    o: MemorySearchOptions,
) -> Seq<char> {
    hex_text(digest(identity_input(trace_hash, pattern_hash, format, o)))
}

/// The identity of a search: what is searched, for what, with which filters.
/// Neither a path nor the page enters it.
pub fn memory_search_content_identity(
    trace_hash: &[u8; 32],
    pattern_hash: &[u8; 32],
    format: TraceFormat,
    options: &MemorySearchOptions,
) -> (s: String)
    ensures
        s@ == identity(trace_hash@, pattern_hash@, format, *options),
{
    let mut key: Vec<u8> = Vec::new();
    push_compat_version(&mut key);
    push_all(&mut key, trace_hash.as_slice());
    push_all(&mut key, pattern_hash.as_slice());
    key.push(format_code(format));
    write_filter_key(&mut key, options);
    assert(key@ =~= identity_input(trace_hash@, pattern_hash@, format, *options));
    to_hex(sha256(key.as_slice()).as_slice())
}

/// File name of the cache of a search.
pub open spec fn cache_name(identity: Seq<char>) -> Seq<char> {
    identity + ".memory-search.cache"@
}

/// Name of the cache file of a search.
pub fn memory_cache_name(
    trace_hash: &[u8; 32],
    pattern_hash: &[u8; 32],
    format: TraceFormat,
    options: &MemorySearchOptions,
) -> (s: String)
    ensures
        s@ == cache_name(identity(trace_hash@, pattern_hash@, format, *options)),
{
    let mut name = memory_search_content_identity(trace_hash, pattern_hash, format, options);
    name.append(".memory-search.cache");
    name
}

/// All pages of a search share one identity.
pub proof fn law_identity_ignores_the_page(
    trace_hash: Seq<u8>,
    pattern_hash: Seq<u8>,
    format: TraceFormat,
    a: MemorySearchOptions,
    b: MemorySearchOptions,
)
    requires
        a.seq_range == b.seq_range,
        a.memory_range == b.memory_range,
    ensures
        identity(trace_hash, pattern_hash, format, a) == identity(
            trace_hash,
            pattern_hash,
            format,
            b,
        ),
{
}

/// Searches that differ in trace hash, pattern hash, format or filters differ
/// in what their identity is the digest of.
pub proof fn law_identity_input_tells_searches_apart(
    th1: Seq<u8>,
    ph1: Seq<u8>,
    f1: TraceFormat,
    a: MemorySearchOptions,
    th2: Seq<u8>,
    ph2: Seq<u8>,
    f2: TraceFormat,
    b: MemorySearchOptions,
)
    requires
        th1.len() == 32,
        ph1.len() == 32,
        th2.len() == 32,
        ph2.len() == 32,
        identity_input(th1, ph1, f1, a) == identity_input(th2, ph2, f2, b),
    ensures
        th1 == th2,
        ph1 == ph2,
        f1 == f2,
        a.seq_range == b.seq_range,
        a.memory_range == b.memory_range,
{
    let x = identity_input(th1, ph1, f1, a);
    let y = identity_input(th2, ph2, f2, b);
    assert(th1 =~= x.subrange(16, 48));
    assert(th2 =~= y.subrange(16, 48));
    assert(ph1 =~= x.subrange(48, 80));
    assert(ph2 =~= y.subrange(48, 80));
    assert(x[80] == format_byte(f1) && y[80] == format_byte(f2));
    assert(filter_key(a) =~= x.skip(81));
    assert(filter_key(b) =~= y.skip(81));
    lemma_filter_key_injective(a, b);
}

proof fn lemma_filter_key_injective(a: MemorySearchOptions, b: MemorySearchOptions)
    requires
        filter_key(a) == filter_key(b),
    ensures
        a.seq_range == b.seq_range,
        a.memory_range == b.memory_range,
{
    let x = filter_key(a);
    let y = filter_key(b);
    assert(x[0] == y[0]);
    let skip: int = if a.seq_range is Some {
        9
    } else {
        1
    };
    if let Some((s1, e1)) = a.seq_range {
        if let Some((s2, e2)) = b.seq_range {
            assert(le32(s1) =~= x.subrange(1, 5));
            assert(le32(s2) =~= y.subrange(1, 5));
            assert(le32(e1) =~= x.subrange(5, 9));
            assert(le32(e2) =~= y.subrange(5, 9));
            crate::bytes::lemma_le32_injective(s1, s2);
            crate::bytes::lemma_le32_injective(e1, e2);
        }
    }
    assert(x[skip] == y[skip]);
    if let Some((s1, e1)) = a.memory_range {
        if let Some((s2, e2)) = b.memory_range {
            assert(le64(s1) =~= x.subrange(skip + 1, skip + 9));
            assert(le64(s2) =~= y.subrange(skip + 1, skip + 9));
            assert(le64(e1) =~= x.subrange(skip + 9, skip + 17));
            assert(le64(e2) =~= y.subrange(skip + 9, skip + 17));
            crate::bytes::lemma_le64_injective(s1, s2);
            crate::bytes::lemma_le64_injective(e1, e2);
        }
    }
}

} // verus!
