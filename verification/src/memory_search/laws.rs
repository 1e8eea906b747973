//! What holds of searches as a whole.

use crate::bytes::{law_le32_read_back, law_le64_read_back, le32, le64};
use crate::memory_search::cache::{
    all_records, all_tags, announced, cache_file, cache_magic, decoded_record, filter_flags,
    header_digest, header_fields, header_ok, in_order, is_file_page, match_at, memory_field,
    page_end, record_at, record_bytes, record_ok, rw_byte, seq_field, tag_at, tag_bytes, yields,
    zeros, CacheKey,
};
use crate::memory_search::expand::expanded;
use crate::memory_search::identity::format_byte;
use crate::memory_search::request::{
    CachePage, MemoryOccurrence, MemorySearchOptions, MemorySearchRw,
};
use crate::memory_search::scan::{
    direction, filter_of, is_page, law_matches_ascend, line_matches, page_of, replay_lines,
    requested, segments, DecodedLine,
};
use crate::memory_search::state::{fresh_matches, low_end, wanted, with_bytes, Bytes, SearchFilter};
use crate::types::TraceFormat;
use vstd::prelude::*;

verus! {

/// Whether a filter lets a match through.
pub open spec fn passes(f: SearchFilter, len: nat) -> spec_fn(MemoryOccurrence) -> bool {
    |item: MemoryOccurrence| wanted(f, len, item.address, item.seq)
}

/// Lets everything through.
pub open spec fn no_filter() -> SearchFilter {
    SearchFilter { seq_range: None, memory_range: None }
}

proof fn lemma_filter_push(
    s: Seq<MemoryOccurrence>,
    x: MemoryOccurrence,
    p: spec_fn(MemoryOccurrence) -> bool,
)
    ensures
        s.push(x).filter(p) == (if p(x) {
            s.filter(p).push(x)
        } else {
            s.filter(p)
        }),
{
    reveal(Seq::filter);
    assert(s.push(x).drop_last() =~= s);
}

proof fn lemma_filter_concat(
    a: Seq<MemoryOccurrence>,
    b: Seq<MemoryOccurrence>,
    p: spec_fn(MemoryOccurrence) -> bool,
)
    ensures
        (a + b).filter(p) == a.filter(p) + b.filter(p),
    decreases b.len(),
{
    reveal(Seq::filter);
    if b.len() == 0 {
        assert(a + b =~= a);
        assert(b.filter(p) =~= Seq::empty());
        assert(a.filter(p) + b.filter(p) =~= a.filter(p));
    } else {
        lemma_filter_concat(a, b.drop_last(), p);
        assert(a + b =~= (a + b.drop_last()).push(b.last()));
        lemma_filter_push(a + b.drop_last(), b.last(), p);
        assert(b =~= b.drop_last().push(b.last()));
        lemma_filter_push(b.drop_last(), b.last(), p);
        assert(a.filter(p) + b.filter(p) =~= (if p(b.last()) {
            (a.filter(p) + b.drop_last().filter(p)).push(b.last())
        } else {
            a.filter(p) + b.drop_last().filter(p)
        }));
    }
}

proof fn lemma_fresh_filter(
    before: Bytes,
    after: Bytes,
    pattern: Seq<u8>,
    f: SearchFilter,
    seq: u32,
    rw: MemorySearchRw,
    low: int,
    high: int,
)
    ensures
        fresh_matches(before, after, pattern, f, seq, rw, low, high) == fresh_matches(
            before,
            after,
            pattern,
            no_filter(),
            seq,
            rw,
            low,
            high,
        ).filter(passes(f, pattern.len())),
    decreases high - low,
{
    let p = passes(f, pattern.len());
    if high <= low {
        reveal(Seq::filter);
        assert(Seq::<MemoryOccurrence>::empty().filter(p) =~= Seq::empty());
    } else {
        lemma_fresh_filter(before, after, pattern, f, seq, rw, low, high - 1);
        let start = (high - 1) as u64;
        lemma_filter_push(
            fresh_matches(before, after, pattern, no_filter(), seq, rw, low, high - 1),
            MemoryOccurrence { address: start, seq, rw },
            p,
        );
    }
}

proof fn lemma_replay_filter(
    data: Seq<u8>,
    decoded: Seq<DecodedLine>,
    format: TraceFormat,
    pattern: Seq<u8>,
    f: SearchFilter,
    n: int,
)
    ensures
        match replay_lines(data, decoded, format, pattern, no_filter(), n) {
            Ok(plain) => replay_lines(data, decoded, format, pattern, f, n) matches Ok(m)
                && m.found == plain.found.filter(passes(f, pattern.len())) && m.mem == plain.mem
                && m.any == plain.any,
            Err(e) => replay_lines(data, decoded, format, pattern, f, n) matches Err(e2) && e2 == e,
        },
    decreases n,
{
    let p = passes(f, pattern.len());
    if n <= 0 {
        reveal(Seq::filter);
        assert(Seq::<MemoryOccurrence>::empty().filter(p) =~= Seq::empty());
    } else {
        lemma_replay_filter(data, decoded, format, pattern, f, n - 1);
        if let Ok(plain) = replay_lines(data, decoded, format, pattern, no_filter(), n - 1) {
            let more = line_matches(plain.mem, decoded[n - 1], pattern, no_filter(), n - 1);
            lemma_filter_concat(plain.found, more, p);
            if let DecodedLine::Access(op) = decoded[n - 1] {
                let values = expanded(op);
                lemma_fresh_filter(
                    plain.mem,
                    with_bytes(plain.mem, op.abs, values, direction(op), values.len() as int),
                    pattern,
                    f,
                    (n - 1) as u32,
                    direction(op),
                    low_end(op.abs, pattern),
                    op.abs + values.len(),
                );
            } else {
                reveal(Seq::filter);
                assert(more.filter(p) =~= Seq::empty());
            }
            assert(line_matches(plain.mem, decoded[n - 1], pattern, f, n - 1) =~= more.filter(p));
        }
    }
}

/// Filters only select: a filtered search finds the matches of the unfiltered
/// one that lie in the ranges, in the same order, and fails where that fails.
pub proof fn law_filters_only_select(
    data: Seq<u8>,
    decoded: Seq<DecodedLine>,
    format: TraceFormat,
    plain: MemorySearchOptions,
    o: MemorySearchOptions,
)
    requires
        plain.pattern@ == o.pattern@,
        plain.seq_range is None,
        plain.memory_range is None,
    ensures
        match requested(data, decoded, format, plain) {
            Ok(all) => requested(data, decoded, format, o) matches Ok(found) && found
                == all.filter(passes(filter_of(o), o.pattern@.len())),
            Err(e) => requested(data, decoded, format, o) matches Err(e2) && e2 == e,
        },
{
    assert(filter_of(plain) == no_filter());
    lemma_replay_filter(
        data,
        decoded,
        format,
        o.pattern@,
        filter_of(o),
        segments(data).len() as int,
    );
}

/// Every match of a search lies in the ranges that it asks for.
pub proof fn law_matches_are_wanted(
    data: Seq<u8>,
    decoded: Seq<DecodedLine>,
    format: TraceFormat,
    o: MemorySearchOptions,
)
    requires
        requested(data, decoded, format, o) is Ok,
    ensures
        forall|i: int|
            #![trigger requested(data, decoded, format, o)->Ok_0[i]]
            0 <= i < requested(data, decoded, format, o)->Ok_0.len() ==> wanted(
                filter_of(o),
                o.pattern@.len(),
                requested(data, decoded, format, o)->Ok_0[i].address,
                requested(data, decoded, format, o)->Ok_0[i].seq,
            ),
{
    let n = segments(data).len() as int;
    let f = filter_of(o);
    lemma_replay_filter(data, decoded, format, o.pattern@, f, n);
    let plain = replay_lines(data, decoded, format, o.pattern@, no_filter(), n)->Ok_0.found;
    lemma_filter_keeps(plain, passes(f, o.pattern@.len()));
}

proof fn lemma_filter_keeps(s: Seq<MemoryOccurrence>, p: spec_fn(MemoryOccurrence) -> bool)
    ensures
        forall|i: int| #![trigger s.filter(p)[i]] 0 <= i < s.filter(p).len() ==> p(s.filter(p)[i]),
    decreases s.len(),
{
    reveal(Seq::filter);
    if s.len() > 0 {
        lemma_filter_keeps(s.drop_last(), p);
    }
}

/// Pages that follow each other put together are one longer page, and a page
/// that says so is followed by a match.
pub proof fn law_pages_join(
    all: Seq<MemoryOccurrence>,
    first: CachePage,
    second: CachePage,
    both: CachePage,
    offset: u32,
    limit: u32,
    more: u32,
)
    requires
        offset + limit <= u32::MAX,
        limit + more <= u32::MAX,
        is_page(first, all, offset, limit),
        is_page(second, all, (offset + limit) as u32, more),
        is_page(both, all, offset, (limit + more) as u32),
    ensures
        both.matches@ == first.matches@ + second.matches@,
        more > 0 ==> first.has_more == (second.matches@.len() > 0),
{
    assert(both.matches@ =~= first.matches@ + second.matches@);
}

// ---------------------------------------------------------------------------
// The cache gives back what was found
// ---------------------------------------------------------------------------

proof fn lemma_record_len(item: MemoryOccurrence)
    ensures
        record_bytes(item).len() == 16,
        decoded_record(record_bytes(item)) == Some(item),
{
    law_le32_read_back(item.seq);
    law_le64_read_back(item.address);
    let r = record_bytes(item);
    assert(r.subrange(0, 4) =~= le32(item.seq));
    assert(r.subrange(8, 16) =~= le64(item.address));
    assert(r[4] == rw_byte(item.rw) && r[5] == 0 && r[6] == 0 && r[7] == 0);
}

proof fn lemma_records(found: Seq<MemoryOccurrence>, n: int, i: int)
    requires
        0 <= i < n <= found.len(),
    ensures
        all_records(found, n).len() == 16 * n,
        all_records(found, n).subrange(16 * i, 16 * i + 16) == record_bytes(found[i]),
    decreases n,
{
    lemma_record_len(found[n - 1]);
    lemma_records_len(found, n - 1);
    let before = all_records(found, n - 1);
    let all = all_records(found, n);
    if i == n - 1 {
        assert(all.subrange(16 * i, 16 * i + 16) =~= record_bytes(found[i]));
    } else {
        lemma_records(found, n - 1, i);
        assert(all.subrange(16 * i, 16 * i + 16) =~= before.subrange(16 * i, 16 * i + 16));
    }
}

proof fn lemma_records_len(found: Seq<MemoryOccurrence>, n: int)
    requires
        0 <= n <= found.len(),
    ensures
        all_records(found, n).len() == 16 * n,
    decreases n,
{
    if n > 0 {
        lemma_records_len(found, n - 1);
        lemma_record_len(found[n - 1]);
    }
}

proof fn lemma_tags_len(identity: Seq<u8>, found: Seq<MemoryOccurrence>, n: int)
    requires
        0 <= n <= found.len(),
    ensures
        all_tags(identity, found, n).len() == 8 * n,
    decreases n,
{
    if n > 0 {
        lemma_tags_len(identity, found, n - 1);
    }
}

proof fn lemma_tags(identity: Seq<u8>, found: Seq<MemoryOccurrence>, n: int, i: int)
    requires
        0 <= i < n <= found.len(),
    ensures
        all_tags(identity, found, n).subrange(8 * i, 8 * i + 8) == tag_bytes(
            identity,
            i as u64,
            record_bytes(found[i]),
        ),
    decreases n,
{
    lemma_tags_len(identity, found, n - 1);
    let before = all_tags(identity, found, n - 1);
    let all = all_tags(identity, found, n);
    if i == n - 1 {
        assert(all.subrange(8 * i, 8 * i + 8) =~= tag_bytes(
            identity,
            i as u64,
            record_bytes(found[i]),
        ));
    } else {
        lemma_tags(identity, found, n - 1, i);
        assert(all.subrange(8 * i, 8 * i + 8) =~= before.subrange(8 * i, 8 * i + 8));
    }
}

/// The ranges of a request are not empty.
pub open spec fn ranges_ok(o: MemorySearchOptions) -> bool {
    &&& o.seq_range matches Some((start, end)) ==> start <= end
    &&& o.memory_range matches Some((start, end)) ==> start < end
}

proof fn lemma_header_fields(key: CacheKey, o: MemorySearchOptions, count: u64)
    requires
        key.trace_hash.len() == 32,
        key.pattern_hash.len() == 32,
    ensures
        ({
            let h = header_fields(
                key.trace_len,
                key.trace_hash,
                key.pattern_hash,
                key.format,
                o,
                count,
            );
            &&& h.len() == 120
            &&& h.subrange(0, 8) == cache_magic()
            &&& h.subrange(8, 16) == le64(key.trace_len)
            &&& h.subrange(16, 48) == key.trace_hash
            &&& h.subrange(48, 80) == key.pattern_hash
            &&& h[80] == format_byte(key.format)
            &&& h[81] == filter_flags(o)
            &&& h.subrange(82, 90) == seq_field(o)
            &&& h.subrange(90, 106) == memory_field(o)
            &&& h.subrange(106, 112) == zeros(6)
            &&& h.subrange(112, 120) == le64(count)
        }),
{
    law_le64_read_back(key.trace_len);
    law_le64_read_back(count);
    if let Some((start, end)) = o.seq_range {
        law_le32_read_back(start);
        law_le32_read_back(end);
    }
    if let Some((start, end)) = o.memory_range {
        law_le64_read_back(start);
        law_le64_read_back(end);
    }
    let h = header_fields(key.trace_len, key.trace_hash, key.pattern_hash, key.format, o, count);
    assert(seq_field(o).len() == 8);
    assert(memory_field(o).len() == 16);
    assert(h.subrange(0, 8) =~= cache_magic());
    assert(h.subrange(8, 16) =~= le64(key.trace_len));
    assert(h.subrange(16, 48) =~= key.trace_hash);
    assert(h.subrange(48, 80) =~= key.pattern_hash);
    assert(h.subrange(82, 90) =~= seq_field(o));
    assert(h.subrange(90, 106) =~= memory_field(o));
    assert(h.subrange(106, 112) =~= zeros(6));
    assert(h.subrange(112, 120) =~= le64(count));
}

proof fn lemma_file_header(key: CacheKey, o: MemorySearchOptions, found: Seq<MemoryOccurrence>)
    requires
        key.trace_hash.len() == 32,
        key.pattern_hash.len() == 32,
        ranges_ok(o),
        found.len() <= u32::MAX,
    ensures
        header_ok(cache_file(key, o, found), key, o),
        announced(cache_file(key, o, found)) == found.len(),
        cache_file(key, o, found).len() == 152 + 24 * found.len(),
{
    let count = found.len() as u64;
    let n = found.len() as int;
    let h = header_fields(key.trace_len, key.trace_hash, key.pattern_hash, key.format, o, count);
    lemma_header_fields(key, o, count);
    lemma_records_len(found, n);
    lemma_tags_len(key.identity, found, n);
    law_le64_read_back(count);
    let file = cache_file(key, o, found);
    assert(header_digest(h).len() == 32);
    assert(file.subrange(0, 120) =~= h);
    assert(file.subrange(120, 152) =~= header_digest(h));
    assert(file.subrange(0, 8) =~= h.subrange(0, 8));
    assert(file.subrange(8, 16) =~= h.subrange(8, 16));
    assert(file.subrange(16, 48) =~= h.subrange(16, 48));
    assert(file.subrange(48, 80) =~= h.subrange(48, 80));
    assert(file.subrange(82, 90) =~= h.subrange(82, 90));
    assert(file.subrange(90, 106) =~= h.subrange(90, 106));
    assert(file.subrange(106, 112) =~= h.subrange(106, 112));
    assert(file.subrange(112, 120) =~= h.subrange(112, 120));
    assert(file[80] == h[80] && file[81] == h[81]);
}

proof fn lemma_file_record(
    key: CacheKey,
    o: MemorySearchOptions,
    found: Seq<MemoryOccurrence>,
    i: int,
)
    requires
        key.trace_hash.len() == 32,
        key.pattern_hash.len() == 32,
        ranges_ok(o),
        found.len() <= u32::MAX,
        0 <= i < found.len(),
    ensures
        record_ok(cache_file(key, o, found), key, i),
        match_at(cache_file(key, o, found), i) == found[i],
{
    let n = found.len() as int;
    lemma_header_fields(key, o, found.len() as u64);
    lemma_file_header(key, o, found);
    lemma_records(found, n, i);
    lemma_tags_len(key.identity, found, n);
    lemma_tags(key.identity, found, n, i);
    lemma_record_len(found[i]);
    let file = cache_file(key, o, found);
    assert(record_at(file, i) =~= all_records(found, n).subrange(16 * i, 16 * i + 16));
    assert(tag_at(file, n, i) =~= all_tags(key.identity, found, n).subrange(8 * i, 8 * i + 8));
}

/// The same pattern and the same ranges; pages may differ.
pub open spec fn same_search(a: MemorySearchOptions, b: MemorySearchOptions) -> bool {
    &&& a.pattern@ == b.pattern@
    &&& a.seq_range == b.seq_range
    &&& a.memory_range == b.memory_range
}

/// A cache gives back what was found: from the file that keeps the result of a
/// search, every page of it is read, whatever its offset and limit, and no
/// other.
pub proof fn law_cache_gives_back_the_result(
    data: Seq<u8>,
    decoded: Seq<DecodedLine>,
    key: CacheKey,
    kept: MemorySearchOptions,
    asked: MemorySearchOptions,
)
    requires
        same_search(kept, asked),
        kept.pattern@.len() > 0,
        ranges_ok(kept),
        key.trace_hash.len() == 32,
        key.pattern_hash.len() == 32,
        requested(data, decoded, key.format, kept) matches Ok(found) && found.len() <= u32::MAX,
    ensures
        requested(data, decoded, key.format, asked) == requested(data, decoded, key.format, kept),
        ({
            let found = requested(data, decoded, key.format, kept)->Ok_0;
            let file = cache_file(key, kept, found);
            &&& yields(file, key, asked)
            &&& forall|page: CachePage| #[trigger]
                is_file_page(page, file, asked) == is_page(page, found, asked.offset, asked.limit)
        }),
{
    let found = requested(data, decoded, key.format, kept)->Ok_0;
    let file = cache_file(key, kept, found);
    assert(file == cache_file(key, asked, found));
    lemma_file_header(key, asked, found);
    law_matches_ascend(data, decoded, key.format, kept);
    law_matches_are_wanted(data, decoded, key.format, kept);
    assert forall|i: int| 0 <= i < found.len() implies #[trigger] match_at(file, i) == found[i]
        && record_ok(file, key, i) by {
        lemma_file_record(key, kept, found, i);
    }
    assert forall|i: int| 0 <= i < found.len() implies #[trigger] record_ok(file, key, i) by {
        lemma_file_record(key, kept, found, i);
    }
    assert forall|i: int| 0 < i < found.len() implies #[trigger] in_order(file, i) by {
        assert(match_at(file, i - 1) == found[i - 1]);
        assert(match_at(file, i) == found[i]);
    }
    let cut = Seq::new(
        (if asked.offset < found.len() {
            page_end(file, asked) - asked.offset
        } else {
            0
        }) as nat,
        |i: int| match_at(file, asked.offset + i),
    );
    assert(cut =~= page_of(found, asked.offset, asked.limit));
}

} // verus!
