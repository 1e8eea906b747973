//! The file that keeps the complete result of a search.
//!
//! A header of fixed fields and its digest, one record per match, one tag per
//! record. Pages are cut from it without reading the rest.

use crate::bytes::{
    from_le32, from_le64, le32, le64, push_all, push_le32, push_le64, read_le32, read_le64,
    same_bytes,
};
use crate::error::{invalid, is_cache_error, is_invalid, TraceError};
use crate::memory_search::identity::{
    compat_version, digest, ensure_trace_unchanged, format_byte, format_code, push_compat_version,
    sha256, trace_changed_text,
};
use crate::memory_search::request::{
    CachePage, MemoryOccurrence, MemorySearchOptions, MemorySearchRw,
};
use crate::memory_search::scan::{
    at_most, decoded_ok, filter_of, reports, requested, scan_memory_with_sink,
    too_many_matches_text, DecodedLine,
};
use crate::memory_search::state::wanted;
use crate::types::TraceFormat;
use vstd::prelude::*;
use vstd::string::*;

verus! {

/// Length of the header fields.
pub const CACHE_HEADER_LEN: usize = 120;

/// Length of the digest of the header fields.
pub const CACHE_HEADER_DIGEST_LEN: usize = 32;

/// Length of the header with its digest.
pub const CACHE_BODY_START: usize = 152;

pub const CACHE_RECORD_LEN: usize = 16;

/// Length of the tag that binds a record to its search and its place.
pub const CACHE_TAG_LEN: usize = 8;

/// `TMSRCH01`
pub open spec fn cache_magic() -> Seq<u8> {
    seq![84u8, 77u8, 83u8, 82u8, 67u8, 72u8, 48u8, 49u8]
}

fn push_magic(out: &mut Vec<u8>)
    ensures
        final(out)@ == old(out)@ + cache_magic(),
{
    let magic: [u8; 8] = [84, 77, 83, 82, 67, 72, 48, 49];
    assert(magic@ =~= cache_magic());
    push_all(out, magic.as_slice());
}

pub open spec fn zeros(n: int) -> Seq<u8> {
    Seq::new(n as nat, |i: int| 0u8)
}

fn push_zeros(out: &mut Vec<u8>, n: usize)
    ensures
        final(out)@ == old(out)@ + zeros(n as int),
{
    let ghost start = out@;
    let mut i: usize = 0;
    while i < n
        invariant
            i <= n,
            out@ =~= start + zeros(i as int),
        decreases n - i,
    {
        out.push(0);
        i += 1;
    }
}

// ---------------------------------------------------------------------------
// Layout
// ---------------------------------------------------------------------------

/// Which filters are present.
pub open spec fn filter_flags(o: MemorySearchOptions) -> u8 {
    match (o.seq_range, o.memory_range) {
        (None, None) => 0,
        (Some(_), None) => 1,
        (None, Some(_)) => 2,
        (Some(_), Some(_)) => 3,
    }
}

pub open spec fn seq_field(o: MemorySearchOptions) -> Seq<u8> {
    match o.seq_range {
        Some((start, end)) => le32(start) + le32(end),
        None => zeros(8),
    }
}

pub open spec fn memory_field(o: MemorySearchOptions) -> Seq<u8> {
    match o.memory_range {
        Some((start, end)) => le64(start) + le64(end),
        None => zeros(16),
    }
}

/// The fields of a header.
pub open spec fn header_fields(
    trace_len: u64,
    trace_hash: Seq<u8>,
    pattern_hash: Seq<u8>,
    format: TraceFormat,
    o: MemorySearchOptions,
    count: u64,
) -> Seq<u8> {
    cache_magic() + le64(trace_len) + trace_hash + pattern_hash + seq![
        format_byte(format),
        filter_flags(o),
    ] + seq_field(o) + memory_field(o) + zeros(6) + le64(count)
}

/// Digest of the header fields.
pub open spec fn header_digest(fields: Seq<u8>) -> Seq<u8> {
    digest(compat_version() + fields)
}

pub open spec fn rw_byte(rw: MemorySearchRw) -> u8 {
    match rw {
        MemorySearchRw::Read => 0,
        MemorySearchRw::Write => 1,
    }
}

/// A match as a record.
pub open spec fn record_bytes(item: MemoryOccurrence) -> Seq<u8> {
    le32(item.seq) + seq![rw_byte(item.rw), 0u8, 0u8, 0u8] + le64(item.address)
}

/// The tag of a record: its digest together with search and place.
pub open spec fn tag_bytes(identity: Seq<u8>, index: u64, record: Seq<u8>) -> Seq<u8> {
    digest(identity + le64(index) + record).take(8)
}

/// The records of the first `n` matches.
pub open spec fn all_records(found: Seq<MemoryOccurrence>, n: int) -> Seq<u8>
    decreases n,
{
    if n <= 0 {
        Seq::empty()
    } else {
        all_records(found, n - 1) + record_bytes(found[n - 1])
    }
}

/// The tags of the first `n` matches.
pub open spec fn all_tags(identity: Seq<u8>, found: Seq<MemoryOccurrence>, n: int) -> Seq<u8>
    decreases n,
{
    if n <= 0 {
        Seq::empty()
    } else {
        all_tags(identity, found, n - 1) + tag_bytes(
            identity,
            (n - 1) as u64,
            record_bytes(found[n - 1]),
        )
    }
}

/// What a cache is for.
pub struct CacheKey {
    pub trace_len: u64,
    pub trace_hash: Seq<u8>,
    pub pattern_hash: Seq<u8>,
    pub format: TraceFormat,
    pub identity: Seq<u8>,
}

/// The whole file.
pub open spec fn cache_file(key: CacheKey, o: MemorySearchOptions, found: Seq<MemoryOccurrence>) -> Seq<
    u8,
> {
    let fields = header_fields(
        key.trace_len,
        key.trace_hash,
        key.pattern_hash,
        key.format,
        o,
        found.len() as u64,
    );
    fields + header_digest(fields) + all_records(found, found.len() as int) + all_tags(
        key.identity,
        found,
        found.len() as int,
    )
}

// ---------------------------------------------------------------------------
// Writing
// ---------------------------------------------------------------------------

/// The fields of a header.
pub fn make_cache_header(
    trace_len: u64,
    trace_hash: &[u8; 32],
    pattern_hash: &[u8; 32],
    format: TraceFormat,
    options: &MemorySearchOptions,
    count: u64,
) -> (header: Vec<u8>)
    ensures
        header@ == header_fields(
            trace_len,
            trace_hash@,
            pattern_hash@,
            format,
            *options,
            count,
        ),
        header@.len() == CACHE_HEADER_LEN,
{
    let mut header: Vec<u8> = Vec::new();
    push_magic(&mut header);
    push_le64(&mut header, trace_len);
    push_all(&mut header, trace_hash.as_slice());
    push_all(&mut header, pattern_hash.as_slice());
    header.push(format_code(format));
    let flags: u8 = match (options.seq_range, options.memory_range) {
        (None, None) => 0,
        (Some(_), None) => 1,
        (None, Some(_)) => 2,
        (Some(_), Some(_)) => 3,
    };
    header.push(flags);
    match options.seq_range {
        Some((start, end)) => {
            push_le32(&mut header, start);
            push_le32(&mut header, end);
        },
        None => {
            push_zeros(&mut header, 8);
        },
    }
    match options.memory_range {
        Some((start, end)) => {
            push_le64(&mut header, start);
            push_le64(&mut header, end);
        },
        None => {
            push_zeros(&mut header, 16);
        },
    }
    push_zeros(&mut header, 6);
    push_le64(&mut header, count);
    assert(header@ =~= header_fields(
        trace_len,
        trace_hash@,
        pattern_hash@,
        format,
        *options,
        count,
    ));
    header
}

/// Digest of the header fields: a header that was changed or cut off without
/// it is refused.
pub fn cache_header_digest(fields: &[u8]) -> (d: [u8; 32])
    ensures
        d@ == header_digest(fields@),
{
    let mut input: Vec<u8> = Vec::new();
    push_compat_version(&mut input);
    push_all(&mut input, fields);
    assert(input@ =~= compat_version() + fields@);
    sha256(input.as_slice())
}

/// The tag of a record.
pub fn record_tag(identity: &str, index: u64, record: &[u8]) -> (tag: Vec<u8>)
    ensures
        tag@ == tag_bytes(identity.spec_bytes(), index, record@),
        tag@.len() == CACHE_TAG_LEN,
{
    let mut input: Vec<u8> = Vec::new();
    push_all(&mut input, identity.as_bytes());
    push_le64(&mut input, index);
    push_all(&mut input, record);
    assert(input@ =~= identity.spec_bytes() + le64(index) + record@);
    let d = sha256(input.as_slice());
    let mut tag: Vec<u8> = Vec::new();
    push_all(&mut tag, vstd::slice::slice_subrange(d.as_slice(), 0, 8));
    assert(tag@ =~= d@.take(8));
    tag
}

fn push_record(out: &mut Vec<u8>, item: &MemoryOccurrence)
    ensures
        final(out)@ == old(out)@ + record_bytes(*item),
{
    let ghost start = out@;
    push_le32(out, item.seq);
    let rw: u8 = match item.rw {
        MemorySearchRw::Read => 0,
        MemorySearchRw::Write => 1,
    };
    out.push(rw);
    out.push(0);
    out.push(0);
    out.push(0);
    push_le64(out, item.address);
    assert(out@ =~= start + record_bytes(*item));
}

/// Assembles the file that keeps `found`.
pub fn encode_cache(
    trace_len: u64,
    trace_hash: &[u8; 32],
    pattern_hash: &[u8; 32],
    format: TraceFormat,
    options: &MemorySearchOptions,
    content_identity: &str,
    found: &Vec<MemoryOccurrence>,
) -> (file: Vec<u8>)
    ensures
        file@ == cache_file(
            cache_key(trace_len, trace_hash@, pattern_hash@, format, content_identity),
            *options,
            found@,
        ),
{
    let n: usize = found.len();
    let mut file = make_cache_header(
        trace_len,
        trace_hash,
        pattern_hash,
        format,
        options,
        n as u64,
    );
    let d = cache_header_digest(file.as_slice());
    push_all(&mut file, d.as_slice());
    let ghost head = file@;
    let mut i: usize = 0;
    while i < n
        invariant
            i <= n,
            n == found@.len(),
            file@ =~= head + all_records(found@, i as int),
        decreases n - i,
    {
        push_record(&mut file, &found[i]);
        i += 1;
    }
    let ghost body = file@;
    let mut k: usize = 0;
    while k < n
        invariant
            k <= n,
            n == found@.len(),
            file@ =~= body + all_tags(content_identity.spec_bytes(), found@, k as int),
        decreases n - k,
    {
        let mut record: Vec<u8> = Vec::new();
        push_record(&mut record, &found[k]);
        assert(record@ =~= record_bytes(found@[k as int]));
        let tag = record_tag(content_identity, k as u64, record.as_slice());
        push_all(&mut file, tag.as_slice());
        k += 1;
    }
    file
}

pub open spec fn cache_key(
    trace_len: u64,
    trace_hash: Seq<u8>,
    pattern_hash: Seq<u8>,
    format: TraceFormat,
    content_identity: &str,
) -> CacheKey {
    CacheKey {
        trace_len,
        trace_hash,
        pattern_hash,
        format,
        identity: content_identity.spec_bytes(),
    }
}

/// Searches a trace and assembles the file that keeps the result.
pub fn stream_cache(
    data: &[u8],
    decoded: &Vec<DecodedLine>,
    trace_hash: &[u8; 32],
    pattern_hash: &[u8; 32],
    format: TraceFormat,
    options: &MemorySearchOptions,
    content_identity: &str,
) -> (r: Result<Vec<u8>, TraceError>)
    requires
        decoded_ok(data@, decoded@),
        options.pattern@.len() > 0,
    ensures
        match requested(data@, decoded@, format, *options) {
            Err(fault) => r matches Err(e) && reports(e, fault),
            Ok(found) => if found.len() > u32::MAX {
                r matches Err(e) && is_invalid(e, too_many_matches_text())
            } else if digest(data@) != trace_hash@ {
                r matches Err(e) && is_cache_error(e, trace_changed_text())
            } else {
                r matches Ok(file) && file@ == cache_file(
                    cache_key(
                        data@.len() as u64,
                        trace_hash@,
                        pattern_hash@,
                        format,
                        content_identity,
                    ),
                    *options,
                    found,
                )
            },
        },
{
    let mut found: Vec<MemoryOccurrence> = Vec::new();
    match scan_memory_with_sink(data, decoded, format, options, &mut found) {
        Ok(_) => {},
        Err(e) => {
            return Err(e);
        },
    }
    assert(found@ =~= requested(data@, decoded@, format, *options)->Ok_0);
    if found.len() > 0xFFFF_FFFF {
        return Err(invalid("too many memory search matches"));
    }
    match ensure_trace_unchanged(data, trace_hash) {
        Ok(_) => {},
        Err(e) => {
            return Err(e);
        },
    }
    Ok(
        encode_cache(
            data.len() as u64,
            trace_hash,
            pattern_hash,
            format,
            options,
            content_identity,
            &found,
        ),
    )
}

// ---------------------------------------------------------------------------
// Reading
// ---------------------------------------------------------------------------

/// The header belongs to this search. Fields of absent filters are not read.
pub open spec fn header_ok(file: Seq<u8>, key: CacheKey, o: MemorySearchOptions) -> bool {
    &&& file.len() >= CACHE_BODY_START
    &&& file.subrange(0, 8) == cache_magic()
    &&& file.subrange(120, 152) == header_digest(file.subrange(0, 120))
    &&& file.subrange(8, 16) == le64(key.trace_len)
    &&& file.subrange(16, 48) == key.trace_hash
    &&& file.subrange(48, 80) == key.pattern_hash
    &&& file[80] == format_byte(key.format)
    &&& file[81] == filter_flags(o)
    &&& file.subrange(106, 112) == zeros(6)
    &&& o.seq_range matches Some((start, end)) ==> start <= end && file.subrange(82, 90)
        == seq_field(o)
    &&& o.memory_range matches Some((start, end)) ==> start < end && file.subrange(90, 106)
        == memory_field(o)
}

/// Number of records that the header announces.
pub open spec fn announced(file: Seq<u8>) -> u64 {
    from_le64(file.subrange(112, 120))
}

/// Record `index`.
pub open spec fn record_at(file: Seq<u8>, index: int) -> Seq<u8> {
    file.subrange(152 + 16 * index, 168 + 16 * index)
}

/// Tag `index` of `count`.
pub open spec fn tag_at(file: Seq<u8>, count: int, index: int) -> Seq<u8> {
    file.subrange(152 + 16 * count + 8 * index, 160 + 16 * count + 8 * index)
}

/// The match that a record stands for, if it is one.
pub open spec fn decoded_record(r: Seq<u8>) -> Option<MemoryOccurrence> {
    if r[5] != 0 || r[6] != 0 || r[7] != 0 || r[4] > 1 {
        None
    } else {
        Some(
            MemoryOccurrence {
                seq: from_le32(r.subrange(0, 4)),
                address: from_le64(r.subrange(8, 16)),
                rw: if r[4] == 0 {
                    MemorySearchRw::Read
                } else {
                    MemorySearchRw::Write
                },
            },
        )
    }
}

/// Record `index` bears its tag and stands for a match.
pub open spec fn record_ok(file: Seq<u8>, key: CacheKey, index: int) -> bool {
    let count = announced(file) as int;
    &&& tag_at(file, count, index) == tag_bytes(
        key.identity,
        index as u64,
        record_at(file, index),
    )
    &&& decoded_record(record_at(file, index)) is Some
}

/// Match `index` of the file.
pub open spec fn match_at(file: Seq<u8>, index: int) -> MemoryOccurrence {
    decoded_record(record_at(file, index))->0
}

pub open spec fn key_before(a: MemoryOccurrence, b: MemoryOccurrence) -> bool {
    a.seq < b.seq || (a.seq == b.seq && a.address < b.address)
}

/// Match `i` comes after the one before it.
pub open spec fn in_order(file: Seq<u8>, i: int) -> bool {
    key_before(match_at(file, i - 1), match_at(file, i))
}

/// The file announces as many records as it holds.
pub open spec fn size_ok(file: Seq<u8>) -> bool {
    announced(file) <= u32::MAX && file.len() == 152 + 24 * announced(file)
}

/// First record that is read for a page: the one before it, so that order
/// across pages is seen.
pub open spec fn read_start(o: MemorySearchOptions) -> int {
    if o.offset > 0 {
        o.offset - 1
    } else {
        0
    }
}

pub open spec fn page_end(file: Seq<u8>, o: MemorySearchOptions) -> int {
    at_most(o.offset + o.limit, announced(file) as int)
}

/// The records of a page are in order.
pub open spec fn page_ok(file: Seq<u8>, key: CacheKey, o: MemorySearchOptions) -> bool {
    &&& forall|i: int|
        read_start(o) <= i < page_end(file, o) ==> #[trigger] record_ok(file, key, i)
    &&& forall|i: int|
        read_start(o) < i < page_end(file, o) ==> #[trigger] in_order(file, i)
    &&& forall|i: int|
        o.offset <= i < page_end(file, o) ==> wanted(
            filter_of(o),
            o.pattern@.len(),
            (#[trigger] match_at(file, i)).address,
            match_at(file, i).seq,
        )
}

/// What a file yields for a request: nothing unless header, size and the
/// records of the page are in order.
pub open spec fn yields(file: Seq<u8>, key: CacheKey, o: MemorySearchOptions) -> bool {
    &&& header_ok(file, key, o)
    &&& size_ok(file)
    &&& o.offset < announced(file) ==> page_ok(file, key, o)
}

/// The page that a file yields.
pub open spec fn is_file_page(page: CachePage, file: Seq<u8>, o: MemorySearchOptions) -> bool {
    let count = announced(file) as int;
    &&& page.total == count
    &&& page.has_more == (o.offset + o.limit < count)
    &&& page.matches@ == Seq::new(
        (if o.offset < count {
            page_end(file, o) - o.offset
        } else {
            0
        }) as nat,
        |i: int| match_at(file, o.offset + i),
    )
}

fn equals_at(file: &[u8], at: usize, expected: &[u8]) -> (b: bool)
    requires
        at + expected@.len() <= file@.len(),
    ensures
        b == (file@.subrange(at as int, at + expected@.len()) == expected@),
{
    let end: usize = file.len();
    assert(at + expected@.len() <= end);
    same_bytes(vstd::slice::slice_subrange(file, at, at + expected.len()), expected)
}

/// Whether the header belongs to this search.
#[verifier::rlimit(40)]
fn check_header(
    file: &[u8],
    trace_len: u64,
    trace_hash: &[u8; 32],
    pattern_hash: &[u8; 32],
    format: TraceFormat,
    options: &MemorySearchOptions,
    content_identity: &str,
) -> (b: bool)
    requires
        file@.len() >= CACHE_BODY_START,
    ensures
        b == header_ok(
            file@,
            cache_key(trace_len, trace_hash@, pattern_hash@, format, content_identity),
            *options,
        ),
{
    let mut magic: Vec<u8> = Vec::new();
    push_magic(&mut magic);
    assert(magic@ =~= cache_magic());
    if !equals_at(file, 0, magic.as_slice()) {
        return false;
    }
    let fields = vstd::slice::slice_subrange(file, 0, 120);
    let d = cache_header_digest(fields);
    if !equals_at(file, 120, d.as_slice()) {
        return false;
    }
    let mut len_bytes: Vec<u8> = Vec::new();
    push_le64(&mut len_bytes, trace_len);
    assert(len_bytes@ =~= le64(trace_len));
    if !equals_at(file, 8, len_bytes.as_slice()) || !equals_at(file, 16, trace_hash.as_slice())
        || !equals_at(file, 48, pattern_hash.as_slice()) || file[80] != format_code(format) {
        return false;
    }
    let flags: u8 = match (options.seq_range, options.memory_range) {
        (None, None) => 0,
        (Some(_), None) => 1,
        (None, Some(_)) => 2,
        (Some(_), Some(_)) => 3,
    };
    if file[81] != flags {
        return false;
    }
    let mut padding: Vec<u8> = Vec::new();
    push_zeros(&mut padding, 6);
    assert(padding@ =~= zeros(6));
    if !equals_at(file, 106, padding.as_slice()) {
        return false;
    }
    if let Some((start, end)) = options.seq_range {
        let mut field: Vec<u8> = Vec::new();
        push_le32(&mut field, start);
        push_le32(&mut field, end);
        assert(field@ =~= seq_field(*options));
        if start > end || !equals_at(file, 82, field.as_slice()) {
            return false;
        }
    }
    if let Some((start, end)) = options.memory_range {
        let mut field: Vec<u8> = Vec::new();
        push_le64(&mut field, start);
        push_le64(&mut field, end);
        assert(field@ =~= memory_field(*options));
        if start >= end || !equals_at(file, 90, field.as_slice()) {
            return false;
        }
    }
    true
}

/// The match that a record stands for, if it bears its tag.
fn read_record(file: &[u8], count: u64, index: u64, content_identity: &str, Ghost(key): Ghost<CacheKey>) -> (r:
    Option<MemoryOccurrence>)
    requires
        count == announced(file@),
        size_ok(file@),
        file@.len() <= usize::MAX,
        index < count,
        key.identity == content_identity.spec_bytes(),
    ensures
        match r {
            Some(item) => record_ok(file@, key, index as int) && item == match_at(
                file@,
                index as int,
            ),
            None => !record_ok(file@, key, index as int),
        },
{
    let at: usize = 152 + 16 * (index as usize);
    let record = vstd::slice::slice_subrange(file, at, at + 16);
    assert(record@ =~= record_at(file@, index as int));
    let tag = record_tag(content_identity, index, record);
    let tag_pos: usize = 152 + 16 * (count as usize) + 8 * (index as usize);
    if !equals_at(file, tag_pos, tag.as_slice()) {
        return None;
    }
    if record[5] != 0 || record[6] != 0 || record[7] != 0 || record[4] > 1 {
        return None;
    }
    let rw: MemorySearchRw = if record[4] == 0 {
        MemorySearchRw::Read
    } else {
        MemorySearchRw::Write
    };
    Some(MemoryOccurrence { address: read_le64(record, 8), seq: read_le32(record, 0), rw })
}

fn is_wanted(options: &MemorySearchOptions, item: &MemoryOccurrence) -> (b: bool)
    ensures
        b == wanted(filter_of(*options), options.pattern@.len(), item.address, item.seq),
{
    if let Some((start, end)) = options.seq_range {
        if item.seq < start || item.seq > end {
            return false;
        }
    }
    if let Some((start, end)) = options.memory_range {
        if item.address < start {
            return false;
        }
        match item.address.checked_add(options.pattern.len() as u64) {
            Some(match_end) => {
                if match_end > end {
                    return false;
                }
            },
            None => {
                return false;
            },
        }
    }
    true
}

/// Cuts a page from a cache file. Only the header, the records of the page and
/// the one before it are looked at; whatever is not in order there makes the
/// whole file count as absent.
#[verifier::rlimit(60)]
pub fn load_cache_page(
    file: &[u8],
    trace_len: u64,
    trace_hash: &[u8; 32],
    pattern_hash: &[u8; 32],
    format: TraceFormat,
    options: &MemorySearchOptions,
    content_identity: &str,
) -> (r: Option<CachePage>)
    ensures
        match r {
            Some(page) => yields(
                file@,
                cache_key(trace_len, trace_hash@, pattern_hash@, format, content_identity),
                *options,
            ) && is_file_page(page, file@, *options),
            None => !yields(
                file@,
                cache_key(trace_len, trace_hash@, pattern_hash@, format, content_identity),
                *options,
            ),
        },
{
    let ghost key = cache_key(trace_len, trace_hash@, pattern_hash@, format, content_identity);
    if file.len() < CACHE_BODY_START {
        return None;
    }
    if !check_header(
        file,
        trace_len,
        trace_hash,
        pattern_hash,
        format,
        options,
        content_identity,
    ) {
        return None;
    }
    let count: u64 = read_le64(file, 112);
    if count > 0xFFFF_FFFF {
        return None;
    }
    let total: u32 = count as u32;
    if file.len() as u64 != 152 + 24 * count {
        return None;
    }
    let first: u64 = options.offset as u64;
    let wanted_end: u64 = first + options.limit as u64;
    let end: u64 = if wanted_end < count {
        wanted_end
    } else {
        count
    };
    let mut matches: Vec<MemoryOccurrence> = Vec::new();
    if first >= count {
        let page = CachePage { total, matches, has_more: false };
        assert(page.matches@ =~= Seq::new(0, |i: int| match_at(file@, options.offset + i)));
        return Some(page);
    }
    let start: u64 = if first > 0 {
        first - 1
    } else {
        0
    };
    let mut previous: Option<MemoryOccurrence> = None;
    let mut index: u64 = start;
    while index < end
        invariant
            start == read_start(*options),
            first == options.offset,
            end == page_end(file@, *options),
            count == announced(file@),
            size_ok(file@),
            file@.len() <= usize::MAX,
            first < count,
            start <= index <= end,
            first <= end <= count,
            key == cache_key(trace_len, trace_hash@, pattern_hash@, format, content_identity),
            forall|i: int| start <= i < index ==> #[trigger] record_ok(file@, key, i),
            forall|i: int| start < i < index ==> #[trigger] in_order(file@, i),
            forall|i: int|
                first <= i < index ==> wanted(
                    filter_of(*options),
                    options.pattern@.len(),
                    (#[trigger] match_at(file@, i)).address,
                    match_at(file@, i).seq,
                ),
            index == start ==> previous is None,
            index > start ==> previous == Some(match_at(file@, index - 1)),
            matches@.len() == (if index > first {
                index - first
            } else {
                0
            }),
            forall|i: int|
                #![trigger matches@[i]]
                0 <= i < matches@.len() ==> matches@[i] == match_at(file@, first + i),
        decreases end - index,
    {
        let item: MemoryOccurrence = match read_record(
            file,
            count,
            index,
            content_identity,
            Ghost(key),
        ) {
            Some(item) => item,
            None => {
                assert(!record_ok(file@, key, index as int));
                return None;
            },
        };
        if let Some(p) = previous {
            if !(p.seq < item.seq || (p.seq == item.seq && p.address < item.address)) {
                assert(!in_order(file@, index as int));
                return None;
            }
        }
        previous = Some(item);
        if index >= first {
            if !is_wanted(options, &item) {
                assert(match_at(file@, index as int) == item);
                return None;
            }
            matches.push(item);
        }
        index += 1;
    }
    let page = CachePage { total, matches, has_more: end < count };
    proof {
        assert(page.matches@ =~= Seq::new(
            (page_end(file@, *options) - options.offset) as nat,
            |i: int| match_at(file@, options.offset + i),
        ));
    }
    Some(page)
}

} // verus!
