//! Which results a cache file may stand for.

use crate::bytes::{law_le32_read_back, law_le64_read_back, le32, le64};
use crate::memory_search::cache::{
    cache_file, cache_magic, header_fields, is_file_page, match_at, memory_field,
    record_at, seq_field, tag_at, tag_bytes, yields, zeros, CacheKey,
};
use crate::memory_search::identity::format_byte;
use crate::memory_search::request::{CachePage, MemoryOccurrence, MemorySearchOptions};
use vstd::prelude::*;

verus! {

proof fn lemma_fields(key: CacheKey, o: MemorySearchOptions, count: u64)
    requires
        key.trace_hash.len() == 32,
        key.pattern_hash.len() == 32,
    ensures
        ({
            let f = header_fields(
                key.trace_len,
                key.trace_hash,
                key.pattern_hash,
                key.format,
                o,
                count,
            );
            &&& f.len() == 120
            &&& f.subrange(8, 16) == le64(key.trace_len)
            &&& f.subrange(16, 48) == key.trace_hash
            &&& f.subrange(48, 80) == key.pattern_hash
            &&& f[80] == format_byte(key.format)
            &&& f.subrange(82, 90) == seq_field(o)
            &&& f.subrange(90, 106) == memory_field(o)
            &&& (o.seq_range is None && o.memory_range is None) == (f[81] == 0)
            &&& (o.seq_range is Some && o.memory_range is None) == (f[81] == 1)
            &&& (o.seq_range is None && o.memory_range is Some) == (f[81] == 2)
        }),
{
    law_le64_read_back(key.trace_len);
    law_le64_read_back(count);
    assert(seq_field(o).len() == 8) by {
        if let Some((start, end)) = o.seq_range {
            law_le32_read_back(start);
            law_le32_read_back(end);
        }
    }
    assert(memory_field(o).len() == 16) by {
        if let Some((start, end)) = o.memory_range {
            law_le64_read_back(start);
            law_le64_read_back(end);
        }
    }
    assert(cache_magic().len() == 8);
    assert(zeros(6).len() == 6);
    let f = header_fields(key.trace_len, key.trace_hash, key.pattern_hash, key.format, o, count);
    assert(f.subrange(8, 16) =~= le64(key.trace_len));
    assert(f.subrange(16, 48) =~= key.trace_hash);
    assert(f.subrange(48, 80) =~= key.pattern_hash);
    assert(f.subrange(82, 90) =~= seq_field(o));
    assert(f.subrange(90, 106) =~= memory_field(o));
}

proof fn lemma_ranges(a: MemorySearchOptions, b: MemorySearchOptions)
    ensures
        a.seq_range is Some && b.seq_range is Some && seq_field(a) == seq_field(b) ==> a.seq_range
            == b.seq_range,
        a.memory_range is Some && b.memory_range is Some && memory_field(a) == memory_field(b)
            ==> a.memory_range == b.memory_range,
{
    if a.seq_range is Some && b.seq_range is Some && seq_field(a) == seq_field(b) {
        let (s, t) = (a.seq_range->0, b.seq_range->0);
        law_le32_read_back(s.0);
        law_le32_read_back(s.1);
        law_le32_read_back(t.0);
        law_le32_read_back(t.1);
        assert(seq_field(a).take(4) =~= le32(s.0));
        assert(seq_field(b).take(4) =~= le32(t.0));
        assert(seq_field(a).skip(4) =~= le32(s.1));
        assert(seq_field(b).skip(4) =~= le32(t.1));
    }
    if a.memory_range is Some && b.memory_range is Some && memory_field(a) == memory_field(b) {
        let (s, t) = (a.memory_range->0, b.memory_range->0);
        law_le64_read_back(s.0);
        law_le64_read_back(s.1);
        law_le64_read_back(t.0);
        law_le64_read_back(t.1);
        assert(memory_field(a).take(8) =~= le64(s.0));
        assert(memory_field(b).take(8) =~= le64(t.0));
        assert(memory_field(a).skip(8) =~= le64(s.1));
        assert(memory_field(b).skip(8) =~= le64(t.1));
    }
}

/// A file kept for one search answers no search with another trace, pattern,
/// format or filter.
pub proof fn law_a_cache_belongs_to_one_search(
    key: CacheKey,
    o: MemorySearchOptions,
    found: Seq<MemoryOccurrence>,
    other_key: CacheKey,
    other: MemorySearchOptions,
)
    requires
        key.trace_hash.len() == 32,
        key.pattern_hash.len() == 32,
        found.len() <= u64::MAX,
        yields(cache_file(key, o, found), other_key, other),
    ensures
        key.trace_len == other_key.trace_len,
        key.trace_hash == other_key.trace_hash,
        key.pattern_hash == other_key.pattern_hash,
        key.format == other_key.format,
        o.seq_range == other.seq_range,
        o.memory_range == other.memory_range,
{
    let file = cache_file(key, o, found);
    let f = header_fields(
        key.trace_len,
        key.trace_hash,
        key.pattern_hash,
        key.format,
        o,
        found.len() as u64,
    );
    lemma_fields(key, o, found.len() as u64);
    assert(file.take(120) =~= f);
    assert(file.subrange(8, 16) =~= f.subrange(8, 16));
    assert(file.subrange(16, 48) =~= f.subrange(16, 48));
    assert(file.subrange(48, 80) =~= f.subrange(48, 80));
    assert(file.subrange(82, 90) =~= f.subrange(82, 90));
    assert(file.subrange(90, 106) =~= f.subrange(90, 106));
    assert(file[80] == f[80] && file[81] == f[81]);
    law_le64_read_back(key.trace_len);
    law_le64_read_back(other_key.trace_len);
    lemma_ranges(o, other);
}

/// What a file answers is asked for and in order: each match is tagged for the
/// search, lies in the asked ranges, and comes after the one before it.
pub proof fn law_answers_from_a_file_are_asked_for(
    page: CachePage,
    file: Seq<u8>,
    key: CacheKey,
    o: MemorySearchOptions,
    i: int,
)
    requires
        yields(file, key, o),
        is_file_page(page, file, o),
        0 <= i < page.matches@.len(),
    ensures
        ({
            let m = page.matches@[i];
            &&& page.matches@.len() <= o.limit
            &&& o.offset + page.matches@.len() <= page.total
            &&& o.seq_range matches Some((first, last)) ==> first <= m.seq <= last
            &&& o.memory_range matches Some((start, end)) ==> start <= m.address && m.address
                + o.pattern@.len() <= end
            &&& i + 1 < page.matches@.len() ==> m.seq < page.matches@[i + 1].seq || m.seq
                == page.matches@[i + 1].seq && m.address < page.matches@[i + 1].address
            &&& tag_at(file, page.total as int, o.offset + i) == tag_bytes(
                key.identity,
                (o.offset + i) as u64,
                record_at(file, o.offset + i),
            )
        }),
{
    let at = o.offset + i;
    assert(page.matches@[i] == match_at(file, at));
    assert(crate::memory_search::cache::record_ok(file, key, at));
    if i + 1 < page.matches@.len() {
        assert(crate::memory_search::cache::in_order(file, at + 1));
        assert(page.matches@[i + 1] == match_at(file, at + 1));
    }
}

} // verus!
