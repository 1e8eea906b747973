//! Searches that go through the cache of complete results.
//!
//! The cache holds no page: each is cut from the checked complete result. What
//! is on disk comes in as bytes, and what is to be kept goes out as bytes.

use crate::error::{cache_error, invalid, is_cache_error, is_invalid, TraceError};
use crate::memory_search::cache::{
    cache_file, cache_key, is_file_page, load_cache_page, stream_cache, yields, CacheKey,
};
use crate::memory_search::identity::{
    digest, ensure_trace_unchanged, identity, memory_search_content_identity, sha256,
    trace_changed_text,
};
use crate::memory_search::laws::{law_cache_gives_back_the_result, ranges_ok};
use crate::memory_search::request::{
    budget_fault, options_fault, validate_options, validate_public_response_budget, CachePage,
    MemoryOccurrence, MemorySearchOccurrence, MemorySearchOccurrenceResult, MemorySearchOptions,
    MemorySearchResult,
};
use crate::memory_search::scan::{
    decoded_ok, is_page, is_result, paginate_page, reports, requested, scan_memory_page,
    too_many_matches_text, DecodedLine,
};
use crate::types::TraceFormat;
use vstd::prelude::*;
use vstd::string::*;
use vstd::utf8::*;

verus! {

/// What the disk holds under the name of a search.
pub enum CacheLookup<'a> {
    /// There is no place for caches.
    Disabled,
    /// There is no such file.
    Missing,
    /// The content of the file.
    Found(&'a [u8]),
}

/// A page, and the file to publish if the disk did not have it.
pub struct CachedPage {
    pub page: CachePage,
    pub publish: Option<Vec<u8>>,
}

/// What the cache of a search is for.
pub open spec fn search_key(
    data: Seq<u8>,
    trace_hash: Seq<u8>,
    pattern_hash: Seq<u8>,
    format: TraceFormat,
    o: MemorySearchOptions,
) -> CacheKey {
    CacheKey {
        trace_len: data.len() as u64,
        trace_hash,
        pattern_hash,
        format,
        identity: encode_utf8(identity(trace_hash, pattern_hash, format, o)),
    }
}

/// The disk holds a file that yields the page.
pub open spec fn is_hit(cache: CacheLookup, key: CacheKey, o: MemorySearchOptions) -> bool {
    cache matches CacheLookup::Found(file) && yields(file@, key, o)
}

pub open spec fn unreadable_text() -> Seq<char> {
    "newly written memory cache failed validation"@
}

/// A page from the disk is the one that the file yields; any other is cut from
/// what the trace holds now, provided that it is still the trace that was
/// hashed. Only a result that could be kept is handed out for publication; one
/// for an inverted range could not be read back and is refused.
pub open spec fn is_cached_page(
    r: Result<CachedPage, TraceError>,
    data: Seq<u8>,
    decoded: Seq<DecodedLine>,
    trace_hash: Seq<u8>,
    pattern_hash: Seq<u8>,
    format: TraceFormat,
    o: MemorySearchOptions,
    cache: CacheLookup,
) -> bool {
    let key = search_key(data, trace_hash, pattern_hash, format, o);
    if is_hit(cache, key, o) {
        r matches Ok(c) && c.publish is None && is_file_page(c.page, cache->Found_0@, o)
    } else {
        match requested(data, decoded, format, o) {
            Err(fault) => r matches Err(e) && reports(e, fault),
            Ok(found) => if found.len() > u32::MAX {
                r matches Err(e) && is_invalid(e, too_many_matches_text())
            } else if digest(data) != trace_hash {
                r matches Err(e) && is_cache_error(e, trace_changed_text())
            } else if !(cache is Disabled) && !ranges_ok(o) {
                r matches Err(e) && is_cache_error(e, unreadable_text())
            } else {
                r matches Ok(c) && is_page(c.page, found, o.offset, o.limit) && match c.publish {
                    None => cache is Disabled,
                    Some(file) => !(cache is Disabled) && file@ == cache_file(key, o, found),
                }
            },
        }
    }
}

/// The page of a search, from the disk or from the trace.
pub fn complete_cached_page(
    data: &[u8],
    decoded: &Vec<DecodedLine>,
    format: TraceFormat,
    options: &MemorySearchOptions,
    trace_hash: &[u8; 32],
    pattern_hash: &[u8; 32],
    cache: CacheLookup,
) -> (r: Result<CachedPage, TraceError>)
    requires
        decoded_ok(data@, decoded@),
        options.pattern@.len() > 0,
    ensures
        is_cached_page(
            r,
            data@,
            decoded@,
            trace_hash@,
            pattern_hash@,
            format,
            *options,
            cache,
        ),
{
    let content_identity = memory_search_content_identity(
        trace_hash,
        pattern_hash,
        format,
        options,
    );
    let name: &str = content_identity.as_str();
    let ghost key = search_key(data@, trace_hash@, pattern_hash@, format, *options);
    let len: u64 = data.len() as u64;
    assert(cache_key(len, trace_hash@, pattern_hash@, format, name) == key);
    match cache {
        CacheLookup::Disabled => {
            let page = match scan_memory_page(data, decoded, format, options) {
                Ok(page) => page,
                Err(e) => {
                    return Err(e);
                },
            };
            return match ensure_trace_unchanged(data, trace_hash) {
                Ok(_) => Ok(CachedPage { page, publish: None }),
                Err(e) => Err(e),
            };
        },
        CacheLookup::Missing => {},
        CacheLookup::Found(file) => {
            if let Some(page) = load_cache_page(
                file,
                len,
                trace_hash,
                pattern_hash,
                format,
                options,
                name,
            ) {
                return Ok(CachedPage { page, publish: None });
            }
        },
    }
    let file = match stream_cache(
        data,
        decoded,
        trace_hash,
        pattern_hash,
        format,
        options,
        name,
    ) {
        Ok(file) => file,
        Err(e) => {
            return Err(e);
        },
    };
    proof {
        if ranges_ok(*options) {
            law_cache_gives_back_the_result(data@, decoded@, key, *options, *options);
        }
    }
    match load_cache_page(
        file.as_slice(),
        len,
        trace_hash,
        pattern_hash,
        format,
        options,
        name,
    ) {
        Some(page) => {
            Ok(CachedPage { page, publish: Some(file) })
        },
        None => {
            Err(cache_error("newly written memory cache failed validation"))
        },
    }
}

/// A page with its bytes, and the file to publish.
pub struct CachedResult {
    pub result: MemorySearchResult,
    pub publish: Option<Vec<u8>>,
}

/// The result shows the page that the cached search gives.
pub open spec fn is_cached_result(
    r: Result<CachedResult, TraceError>,
    data: Seq<u8>,
    decoded: Seq<DecodedLine>,
    trace_hash: Seq<u8>,
    format: TraceFormat,
    o: MemorySearchOptions,
    cache: CacheLookup,
) -> bool {
    match options_fault(o) {
        Some(text) => r matches Err(e) && is_invalid(e, text),
        None => match budget_fault(o) {
            Some(text) => r matches Err(e) && is_invalid(e, text),
            None => exists|page: Result<CachedPage, TraceError>| #[trigger]
                is_cached_page(
                    page,
                    data,
                    decoded,
                    trace_hash,
                    digest(o.pattern@),
                    format,
                    o,
                    cache,
                ) && match page {
                    Ok(c) => r matches Ok(result) && is_result(result.result, c.page, o)
                        && result.publish == c.publish,
                    Err(e) => r == Err::<CachedResult, TraceError>(e),
                },
        },
    }
}

/// Searches a trace whose hash the session has already established.
pub fn search_memory_cached_with_trace_hash(
    data: &[u8],
    decoded: &Vec<DecodedLine>,
    format: TraceFormat,
    options: &MemorySearchOptions,
    trace_hash: &[u8; 32],
    cache: CacheLookup,
) -> (r: Result<CachedResult, TraceError>)
    requires
        decoded_ok(data@, decoded@),
    ensures
        is_cached_result(r, data@, decoded@, trace_hash@, format, *options, cache),
{
    match validate_options(options) {
        Ok(_) => {},
        Err(e) => {
            return Err(e);
        },
    }
    match validate_public_response_budget(options) {
        Ok(_) => {},
        Err(e) => {
            return Err(e);
        },
    }
    let pattern_hash = sha256(options.pattern.as_slice());
    let page = complete_cached_page(
        data,
        decoded,
        format,
        options,
        trace_hash,
        &pattern_hash,
        cache,
    );
    let ghost shown = page;
    let r = match page {
        Ok(c) => Ok(
            CachedResult { result: paginate_page(c.page, options), publish: c.publish },
        ),
        Err(e) => Err(e),
    };
    assert(is_cached_page(
        shown,
        data@,
        decoded@,
        trace_hash@,
        digest(options.pattern@),
        format,
        *options,
        cache,
    ));
    r
}

/// Searches a trace through the cache.
pub fn search_memory_cached(
    data: &[u8],
    decoded: &Vec<DecodedLine>,
    format: TraceFormat,
    options: &MemorySearchOptions,
    cache: CacheLookup,
) -> (r: Result<CachedResult, TraceError>)
    requires
        decoded_ok(data@, decoded@),
    ensures
        is_cached_result(r, data@, decoded@, digest(data@), format, *options, cache),
{
    match validate_options(options) {
        Ok(_) => {},
        Err(e) => {
            return Err(e);
        },
    }
    match validate_public_response_budget(options) {
        Ok(_) => {},
        Err(e) => {
            return Err(e);
        },
    }
    let trace_hash = sha256(data);
    search_memory_cached_with_trace_hash(data, decoded, format, options, &trace_hash, cache)
}

/// Matches with the size of the pattern.
pub open spec fn sized(items: Seq<MemoryOccurrence>, size: u32) -> Seq<MemorySearchOccurrence> {
    items.map_values(
        |item: MemoryOccurrence|
            MemorySearchOccurrence { address: item.address, seq: item.seq, size, rw: item.rw },
    )
}

/// The matches of a page without their bytes.
pub open spec fn is_occurrences(
    r: MemorySearchOccurrenceResult,
    page: CachePage,
    o: MemorySearchOptions,
    content_identity: Seq<char>,
) -> bool {
    &&& r.content_identity@ == content_identity
    &&& r.total == page.total
    &&& r.offset == o.offset
    &&& r.limit == o.limit
    &&& r.has_more == page.has_more
    &&& r.matches@ == sized(page.matches@, o.pattern@.len() as u32)
}

/// Names the matches of a page without repeating the pattern in each.
pub fn paginate_occurrences(
    page: CachePage,
    options: &MemorySearchOptions,
    content_identity: String,
) -> (r: Result<MemorySearchOccurrenceResult, TraceError>)
    ensures
        if options.pattern@.len() > u32::MAX {
            r matches Err(e) && is_invalid(e, "pattern is too large"@)
        } else {
            r matches Ok(result) && is_occurrences(result, page, *options, content_identity@)
        },
{
    if options.pattern.len() > 0xFFFF_FFFF {
        return Err(invalid("pattern is too large"));
    }
    let size: u32 = options.pattern.len() as u32;
    let mut matches: Vec<MemorySearchOccurrence> = Vec::new();
    let mut i: usize = 0;
    while i < page.matches.len()
        invariant
            i <= page.matches@.len(),
            matches@.len() == i,
            forall|k: int|
                #![trigger matches@[k]]
                0 <= k < i ==> matches@[k] == (MemorySearchOccurrence {
                    address: page.matches@[k].address,
                    seq: page.matches@[k].seq,
                    size,
                    rw: page.matches@[k].rw,
                }),
        decreases page.matches@.len() - i,
    {
        let item: MemoryOccurrence = page.matches[i];
        matches.push(
            MemorySearchOccurrence { address: item.address, seq: item.seq, size, rw: item.rw },
        );
        i += 1;
    }
    let r = MemorySearchOccurrenceResult {
        content_identity,
        matches,
        total: page.total,
        offset: options.offset,
        limit: options.limit,
        has_more: page.has_more,
    };
    assert(r.matches@ =~= sized(page.matches@, size));
    Ok(r)
}

/// A page without bytes, and the file to publish.
pub struct CachedOccurrences {
    pub result: MemorySearchOccurrenceResult,
    pub publish: Option<Vec<u8>>,
}

/// The result names the page that the cached search gives.
pub open spec fn is_cached_occurrences(
    r: Result<CachedOccurrences, TraceError>,
    data: Seq<u8>,
    decoded: Seq<DecodedLine>,
    trace_hash: Seq<u8>,
    format: TraceFormat,
    o: MemorySearchOptions,
    cache: CacheLookup,
) -> bool {
    match options_fault(o) {
        Some(text) => r matches Err(e) && is_invalid(e, text),
        None => exists|page: Result<CachedPage, TraceError>| #[trigger]
            is_cached_page(
                page,
                data,
                decoded,
                trace_hash,
                digest(o.pattern@),
                format,
                o,
                cache,
            ) && match page {
                Ok(c) => r matches Ok(result) && is_occurrences(
                    result.result,
                    c.page,
                    o,
                    identity(trace_hash, digest(o.pattern@), format, o),
                ) && result.publish == c.publish,
                Err(e) => r == Err::<CachedOccurrences, TraceError>(e),
            },
    }
}

/// Searches a trace of known hash; the matches come without their bytes.
pub fn search_occurrences_with_trace_hash(
    data: &[u8],
    decoded: &Vec<DecodedLine>,
    format: TraceFormat,
    options: &MemorySearchOptions,
    trace_hash: &[u8; 32],
    cache: CacheLookup,
) -> (r: Result<CachedOccurrences, TraceError>)
    requires
        decoded_ok(data@, decoded@),
    ensures
        is_cached_occurrences(r, data@, decoded@, trace_hash@, format, *options, cache),
{
    match validate_options(options) {
        Ok(_) => {},
        Err(e) => {
            return Err(e);
        },
    }
    let pattern_hash = sha256(options.pattern.as_slice());
    let content_identity = memory_search_content_identity(
        trace_hash,
        &pattern_hash,
        format,
        options,
    );
    let page = complete_cached_page(
        data,
        decoded,
        format,
        options,
        trace_hash,
        &pattern_hash,
        cache,
    );
    let ghost shown = page;
    let r = match page {
        Ok(c) => match paginate_occurrences(c.page, options, content_identity) {
            Ok(result) => Ok(CachedOccurrences { result, publish: c.publish }),
            Err(e) => Err(e),
        },
        Err(e) => Err(e),
    };
    assert(is_cached_page(
        shown,
        data@,
        decoded@,
        trace_hash@,
        digest(options.pattern@),
        format,
        *options,
        cache,
    ));
    r
}

/// Searches a trace through the cache; the matches come without their bytes,
/// which the caller has anyway.
pub fn search_memory_cached_occurrences(
    data: &[u8],
    decoded: &Vec<DecodedLine>,
    format: TraceFormat,
    options: &MemorySearchOptions,
    cache: CacheLookup,
) -> (r: Result<CachedOccurrences, TraceError>)
    requires
        decoded_ok(data@, decoded@),
    ensures
        is_cached_occurrences(r, data@, decoded@, digest(data@), format, *options, cache),
{
    match validate_options(options) {
        Ok(_) => {},
        Err(e) => {
            return Err(e);
        },
    }
    let trace_hash = sha256(data);
    search_occurrences_with_trace_hash(data, decoded, format, options, &trace_hash, cache)
}

} // verus!
