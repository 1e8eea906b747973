//! Queries on the strings of a trace, and the scan that finds them.

use crate::engine::call_tree::{place_text, resolve_offset};
use crate::engine::session::{get_line, line_at, LineFact, TraceEngine, TraceSession};
use crate::error::{is_unknown_session, TraceError};
use crate::foreign;
use crate::query::mem_access::{accesses_at, MemAccessIndex, MemAccessRecord, MemRw};
use crate::query::strings::{StringAccess, StringEncoding, StringIndex, StringRecord, StringRw};
use crate::text::{address, address_text, contains_text, holds_text};
use std::collections::HashSet;
use vstd::prelude::*;

verus! {

// ---------------------------------------------------------------------------
// Strings
// ---------------------------------------------------------------------------

pub struct StringQueryOptions {
    pub min_len: u32,
    /// Case does not matter.
    pub search: Option<String>,
    pub offset: u32,
    pub limit: u32,
}

/// A string as it is shown.
#[derive(Debug, Clone, PartialEq, Eq)]
pub struct StringRecordDto {
    /// Position in the whole list.
    pub idx: u32,
    pub addr: String,
    pub content: String,
    pub encoding: String,
    pub byte_len: u32,
    pub seq: u32,
    pub xref_count: u32,
    pub rw: String,
}

/// A page of strings.
#[derive(Debug, Clone, PartialEq, Eq)]
pub struct StringsResult {
    pub strings: Vec<StringRecordDto>,
    /// Number of strings that match.
    pub total: u32,
}

/// A string is long enough and holds what is searched for.
pub open spec fn fits(byte_len: u32, content: Seq<char>, min_len: u32, search: Option<Seq<char>>) -> bool {
    &&& byte_len >= min_len
    &&& search matches Some(query) ==> holds_text(content, query)
}

/// Whether a string is long enough and holds what is searched for; content and
/// query are compared as they are.
pub fn string_fits(byte_len: u32, content: &str, min_len: u32, search: Option<&str>) -> (b: bool)
    ensures
        b == fits(
            byte_len,
            content@,
            min_len,
            match search {
                Some(query) => Some(query@),
                None => None,
            },
        ),
{
    if byte_len < min_len {
        return false;
    }
    match search {
        Some(query) => contains_text(content, query),
        None => true,
    }
}

/// The first `n` strings that the query asks for, by position.
pub open spec fn selected(
    strings: Seq<StringRecord>,
    min_len: u32,
    search: Option<Seq<char>>,
    n: int,
) -> Seq<int>
    decreases n,
{
    if n <= 0 {
        Seq::empty()
    } else {
        let earlier = selected(strings, min_len, search, n - 1);
        let s = strings[n - 1];
        if fits(s.byte_len, foreign::lowercase_text(s.content@), min_len, search) {
            earlier.push(n - 1)
        } else {
            earlier
        }
    }
}

pub open spec fn lowered(search: Option<String>) -> Option<Seq<char>> {
    match search {
        Some(s) => Some(foreign::lowercase_text(s@)),
        None => None,
    }
}

pub open spec fn encoding_text(e: StringEncoding) -> Seq<char> {
    match e {
        StringEncoding::Ascii => "ASCII"@,
        StringEncoding::Utf8 => "UTF-8"@,
    }
}

pub open spec fn string_rw_text(rw: StringRw) -> Seq<char> {
    match rw {
        StringRw::Read => "R"@,
        StringRw::Write => "W"@,
    }
}

/// The DTO shows the string.
pub open spec fn shows_string(d: StringRecordDto, r: StringRecord, idx: int) -> bool {
    &&& d.idx == idx
    &&& d.addr@ == address_text(r.addr)
    &&& d.content@ == r.content@
    &&& d.encoding@ == encoding_text(r.encoding)
    &&& d.byte_len == r.byte_len
    &&& d.seq == r.seq
    &&& d.xref_count == r.xref_count
    &&& d.rw@ == string_rw_text(r.rw)
}

/// The DTO shows a page of the chosen strings.
pub open spec fn shows_page(
    d: StringsResult,
    strings: Seq<StringRecord>,
    chosen: Seq<int>,
    offset: u32,
    limit: u32,
) -> bool {
    let start = if offset < chosen.len() {
        offset as int
    } else {
        chosen.len() as int
    };
    let end = if start + limit < chosen.len() {
        start + limit
    } else {
        chosen.len() as int
    };
    &&& d.total == chosen.len()
    &&& d.strings@.len() == end - start
    &&& forall|i: int|
        #![trigger d.strings@[i]]
        0 <= i < d.strings@.len() ==> shows_string(
            d.strings@[i],
            strings[chosen[start + i]],
            chosen[start + i],
        )
}

fn string_to_dto(r: &StringRecord, idx: u32) -> (d: StringRecordDto)
    ensures
        shows_string(d, *r, idx as int),
{
    let encoding: &str = match r.encoding {
        StringEncoding::Ascii => "ASCII",
        StringEncoding::Utf8 => "UTF-8",
    };
    let rw: &str = match r.rw {
        StringRw::Read => "R",
        StringRw::Write => "W",
    };
    StringRecordDto {
        idx,
        addr: address(r.addr),
        content: r.content.clone(),
        encoding: encoding.to_owned(),
        byte_len: r.byte_len,
        seq: r.seq,
        xref_count: r.xref_count,
        rw: rw.to_owned(),
    }
}

/// Positions as numbers.
pub open spec fn as_ints(s: Seq<u32>) -> Seq<int> {
    s.map_values(|i: u32| i as int)
}

/// A page of the chosen strings.
pub fn string_page(index: &StringIndex, chosen: &Vec<u32>, offset: u32, limit: u32) -> (d: StringsResult)
    requires
        chosen@.len() <= u32::MAX,
        forall|i: int|
            #![trigger chosen@[i]]
            0 <= i < chosen@.len() ==> chosen@[i] < index.strings@.len(),
    ensures
        shows_page(d, index.strings@, as_ints(chosen@), offset, limit),
{
    let start: usize = if (offset as usize) < chosen.len() {
        offset as usize
    } else {
        chosen.len()
    };
    let left: usize = chosen.len() - start;
    let end: usize = if (limit as usize) < left {
        start + limit as usize
    } else {
        chosen.len()
    };
    let mut strings: Vec<StringRecordDto> = Vec::new();
    let mut i: usize = start;
    while i < end
        invariant
            start <= i <= end <= chosen@.len(),
            strings@.len() == i - start,
            forall|k: int|
                #![trigger chosen@[k]]
                0 <= k < chosen@.len() ==> chosen@[k] < index.strings@.len(),
            forall|k: int|
                #![trigger strings@[k]]
                0 <= k < strings@.len() ==> shows_string(
                    strings@[k],
                    index.strings@[as_ints(chosen@)[start + k]],
                    as_ints(chosen@)[start + k],
                ),
        decreases end - i,
    {
        let idx: u32 = chosen[i];
        assert(as_ints(chosen@)[i as int] == idx);
        strings.push(string_to_dto(&index.strings[idx as usize], idx));
        i += 1;
    }
    StringsResult { strings, total: chosen.len() as u32 }
}

fn select(index: &StringIndex, min_len: u32, search: &Option<String>) -> (chosen: Vec<u32>)
    requires
        index.strings@.len() <= u32::MAX,
    ensures
        as_ints(chosen@) == selected(
            index.strings@,
            min_len,
            lowered(*search),
            index.strings@.len() as int,
        ),
        chosen@.len() <= index.strings@.len(),
        forall|i: int|
            #![trigger chosen@[i]]
            0 <= i < chosen@.len() ==> chosen@[i] < index.strings@.len(),
{
    let query: Option<String> = match search {
        Some(s) => Some(foreign::to_lowercase(s.as_str())),
        None => None,
    };
    let ghost wanted = lowered(*search);
    let mut chosen: Vec<u32> = Vec::new();
    assert(as_ints(chosen@) =~= Seq::empty());
    let mut i: usize = 0;
    while i < index.strings.len()
        invariant
            i <= index.strings@.len() <= u32::MAX,
            wanted == (match query {
                Some(s) => Some(s@),
                None => None,
            }),
            as_ints(chosen@) == selected(index.strings@, min_len, wanted, i as int),
            chosen@.len() <= i,
            forall|k: int|
                #![trigger chosen@[k]]
                0 <= k < chosen@.len() ==> chosen@[k] < index.strings@.len(),
        decreases index.strings@.len() - i,
    {
        let r = &index.strings[i];
        let content = foreign::to_lowercase(r.content.as_str());
        let searched: Option<&str> = match &query {
            Some(s) => Some(s.as_str()),
            None => None,
        };
        if string_fits(r.byte_len, content.as_str(), min_len, searched) {
            let ghost before = chosen@;
            chosen.push(i as u32);
            assert(as_ints(chosen@) =~= as_ints(before).push(i as int));
        }
        i += 1;
    }
    chosen
}

/// The strings of a session, if any, can be numbered.
pub open spec fn strings_numbered(s: TraceSession) -> bool {
    s.string_index matches Some(index) ==> index.strings@.len() <= u32::MAX
}

// ---------------------------------------------------------------------------
// References
// ---------------------------------------------------------------------------

/// An access to a string.
#[derive(Debug, Clone, PartialEq, Eq)]
pub struct StringXRef {
    pub seq: u32,
    pub rw: String,
    pub insn_addr: String,
    pub disasm: String,
}

/// The accesses to the `n` bytes from `addr` on, byte by byte.
pub open spec fn accesses_to(m: Map<u64, Seq<MemAccessRecord>>, addr: u64, n: int) -> Seq<
    MemAccessRecord,
>
    decreases n,
{
    if n <= 0 {
        Seq::empty()
    } else {
        accesses_to(m, addr, n - 1) + accesses_at(m, (addr + n - 1) as u64)
    }
}

/// The first access of each line, in the order of the list.
pub open spec fn one_per_line(s: Seq<MemAccessRecord>) -> Seq<MemAccessRecord>
    decreases s.len(),
{
    if s.len() == 0 {
        s
    } else {
        let earlier = one_per_line(s.drop_last());
        if has_line(earlier, s.last().seq) {
            earlier
        } else {
            earlier.push(s.last())
        }
    }
}

/// An access of this line is in the list.
pub open spec fn has_line(s: Seq<MemAccessRecord>, seq: u32) -> bool {
    exists|i: int| #![trigger s[i]] 0 <= i < s.len() && s[i].seq == seq
}

pub open spec fn mem_rw_text(rw: MemRw) -> Seq<char> {
    match rw {
        MemRw::Read => "R"@,
        MemRw::Write => "W"@,
    }
}

pub fn mem_rw_str(rw: MemRw) -> (s: &'static str)
    ensures
        s@ == mem_rw_text(rw),
{
    match rw {
        MemRw::Read => "R",
        MemRw::Write => "W",
    }
}

/// The instruction of a line as text.
pub open spec fn disasm_at(lines: Option<Vec<LineFact>>, seq: u32) -> Seq<char> {
    match line_at(lines, seq) {
        Some(fact) => fact.disasm@,
        None => ""@,
    }
}

pub fn disasm_of(lines: &Option<Vec<LineFact>>, seq: u32) -> (s: String)
    ensures
        s@ == disasm_at(*lines, seq),
{
    match get_line(lines, seq) {
        Some(fact) => fact.disasm.clone(),
        None => "".to_owned(),
    }
}

/// The reference shows the access.
pub open spec fn shows_xref(x: StringXRef, r: MemAccessRecord, lines: Option<Vec<LineFact>>) -> bool {
    &&& x.seq == r.seq
    &&& x.rw@ == mem_rw_text(r.rw)
    &&& x.insn_addr@ == place_text(lines, r.seq, r.insn_addr)
    &&& x.disasm@ == disasm_at(lines, r.seq)
}

/// The references show one access per line, ascending by line.
pub open spec fn shows_xrefs(
    x: Seq<StringXRef>,
    accesses: Seq<MemAccessRecord>,
    lines: Option<Vec<LineFact>>,
) -> bool {
    let firsts = one_per_line(accesses);
    &&& forall|i: int, j: int|
        #![trigger x[i], x[j]]
        0 <= i < j < x.len() ==> x[i].seq < x[j].seq
    &&& forall|i: int| #![trigger x[i]] 0 <= i < x.len() ==> shows_one_of(x[i], firsts, lines)
    &&& forall|k: int|
        #![trigger firsts[k]]
        0 <= k < firsts.len() ==> is_shown(firsts[k], x, lines)
}

/// The reference shows one of the accesses.
pub open spec fn shows_one_of(
    x: StringXRef,
    accesses: Seq<MemAccessRecord>,
    lines: Option<Vec<LineFact>>,
) -> bool {
    exists|k: int|
        #![trigger accesses[k]]
        0 <= k < accesses.len() && shows_xref(x, accesses[k], lines)
}

/// One of the references shows the access.
pub open spec fn is_shown(
    r: MemAccessRecord,
    x: Seq<StringXRef>,
    lines: Option<Vec<LineFact>>,
) -> bool {
    exists|i: int| #![trigger x[i]] 0 <= i < x.len() && shows_xref(x[i], r, lines)
}

proof fn lemma_one_per_line(s: Seq<MemAccessRecord>)
    ensures
        forall|i: int, j: int|
            #![trigger one_per_line(s)[i], one_per_line(s)[j]]
            0 <= i < j < one_per_line(s).len() ==> one_per_line(s)[i].seq != one_per_line(s)[j].seq,
    decreases s.len(),
{
    if s.len() > 0 {
        lemma_one_per_line(s.drop_last());
    }
}

/// Keeps the first access of each line.
fn collect_xrefs(
    m: &MemAccessIndex,
    addr: u64,
    byte_len: u32,
) -> (kept: Vec<(u64, MemAccessRecord)>)
    requires
        addr + byte_len <= u64::MAX + 1,
    ensures
        kept@ == keyed(one_per_line(accesses_to(m@, addr, byte_len as int))),
{
    broadcast use vstd::std_specs::hash::group_hash_axioms;

    let mut kept: Vec<(u64, MemAccessRecord)> = Vec::new();
    let mut seen: HashSet<u32> = HashSet::new();
    let ghost mut list: Seq<MemAccessRecord> = Seq::empty();
    assert(kept@ =~= keyed(one_per_line(list)));
    let mut offset: u32 = 0;
    while offset < byte_len
        invariant
            offset <= byte_len,
            addr + byte_len <= u64::MAX + 1,
            list == accesses_to(m@, addr, offset as int),
            kept@ == keyed(one_per_line(list)),
            forall|seq: u32| #[trigger] seen@.contains(seq) == has_line(one_per_line(list), seq),
        decreases byte_len - offset,
    {
        let target: u64 = addr + offset as u64;
        let ghost start = list;
        let ghost here = accesses_at(m@, target);
        assert(start + here.take(0) =~= start);
        if let Some(records) = m.get(target) {
            let mut k: usize = 0;
            while k < records.len()
                invariant
                    k <= records@.len(),
                    here == records@,
                    list == start + here.take(k as int),
                    kept@ == keyed(one_per_line(list)),
                    forall|seq: u32| #[trigger]
                        seen@.contains(seq) == has_line(one_per_line(list), seq),
                decreases records@.len() - k,
            {
                let r: MemAccessRecord = records[k];
                let ghost before = list;
                let ghost firsts = one_per_line(before);
                proof {
                    list = start + here.take(k + 1);
                    assert(list =~= before.push(r));
                    assert(list.drop_last() =~= before);
                    assert(seen@.contains(r.seq) == has_line(firsts, r.seq));
                }
                let fresh: bool = seen.insert(r.seq);
                if fresh {
                    kept.push((r.seq as u64, r));
                    assert(one_per_line(list) == firsts.push(r));
                    assert(kept@ =~= keyed(firsts.push(r)));
                    assert forall|seq: u32| #[trigger] seen@.contains(seq) == has_line(
                        firsts.push(r),
                        seq,
                    ) by {
                        let now = firsts.push(r);
                        if has_line(firsts, seq) {
                            let i = choose|i: int|
                                #![trigger firsts[i]]
                                0 <= i < firsts.len() && firsts[i].seq == seq;
                            assert(now[i].seq == seq);
                        }
                        if has_line(now, seq) && seq != r.seq {
                            let i = choose|i: int|
                                #![trigger now[i]]
                                0 <= i < now.len() && now[i].seq == seq;
                            assert(firsts[i].seq == seq);
                        }
                        assert(now[firsts.len() as int].seq == r.seq);
                    }
                } else {
                    assert(one_per_line(list) == firsts);
                }
                k += 1;
            }
            assert(here.take(here.len() as int) =~= here);
        } else {
            assert(here =~= Seq::empty());
            assert(start + here =~= start);
        }
        assert(list =~= accesses_to(m@, addr, offset + 1));
        offset += 1;
    }
    kept
}

/// Accesses with their lines.
pub open spec fn keyed(s: Seq<MemAccessRecord>) -> Seq<(u64, MemAccessRecord)> {
    s.map_values(|r: MemAccessRecord| (r.seq as u64, r))
}

/// The accesses to a string, one per line, ascending by line.
fn string_xrefs(
    m: &MemAccessIndex,
    lines: &Option<Vec<LineFact>>,
    addr: u64,
    byte_len: u32,
) -> (x: Vec<StringXRef>)
    requires
        addr + byte_len <= u64::MAX + 1,
    ensures
        shows_xrefs(x@, accesses_to(m@, addr, byte_len as int), *lines),
{
    let mut kept = collect_xrefs(m, addr, byte_len);
    let ghost list = accesses_to(m@, addr, byte_len as int);
    let ghost firsts = one_per_line(list);
    let ghost before = kept@;
    foreign::sort_by_first(&mut kept);
    proof {
        lemma_one_per_line(list);
        assert forall|i: int, j: int|
            #![trigger before[i], before[j]]
            0 <= i < j < before.len() implies before[i].0 != before[j].0 by {
            assert(firsts[i].seq != firsts[j].seq);
        }
        foreign::lemma_sorted_distinct(before, kept@);
    }
    let ghost sorted = kept@;
    let mut x: Vec<StringXRef> = Vec::new();
    let mut i: usize = 0;
    assert forall|k: int| #![trigger sorted[k]] 0 <= k < sorted.len() implies sorted[k].0
        == sorted[k].1.seq by {
        assert(before.contains(sorted[k]));
        let w = choose|w: int| 0 <= w < before.len() && before[w] == sorted[k];
        assert(before[w] == (firsts[w].seq as u64, firsts[w]));
    }
    while i < kept.len()
        invariant
            i <= kept@.len(),
            kept@ == sorted,
            x@.len() == i,
            forall|k: int|
                #![trigger x@[k]]
                0 <= k < i ==> shows_xref(x@[k], sorted[k].1, *lines),
        decreases kept@.len() - i,
    {
        let r: MemAccessRecord = kept[i].1;
        x.push(
            StringXRef {
                seq: r.seq,
                rw: mem_rw_str(r.rw).to_owned(),
                insn_addr: resolve_offset(lines, r.seq, r.insn_addr),
                disasm: disasm_of(lines, r.seq),
            },
        );
        i += 1;
    }
    proof {
        assert forall|a: int, b: int| #![trigger x@[a], x@[b]] 0 <= a < b < x@.len() implies x@[a].seq
            < x@[b].seq by {
            assert(sorted[a].0 < sorted[b].0);
        }
        assert forall|a: int| #![trigger x@[a]] 0 <= a < x@.len() implies shows_one_of(
            x@[a],
            firsts,
            *lines,
        ) by {
            assert(before.contains(sorted[a]));
            let w = choose|w: int| 0 <= w < before.len() && before[w] == sorted[a];
            assert(before[w] == (firsts[w].seq as u64, firsts[w]));
            assert(shows_xref(x@[a], firsts[w], *lines));
        }
        assert forall|k: int| #![trigger firsts[k]] 0 <= k < firsts.len() implies is_shown(
            firsts[k],
            x@,
            *lines,
        ) by {
            assert(before[k] == (firsts[k].seq as u64, firsts[k]));
            assert(sorted.contains(before[k]));
            let a = choose|a: int| 0 <= a < sorted.len() && sorted[a] == before[k];
            assert(shows_xref(x@[a], firsts[k], *lines));
        }
    }
    x
}

impl TraceEngine {
    /// A page of the strings that a query asks for.
    pub fn get_strings(&self, session_id: &str, options: &StringQueryOptions) -> (r: Result<
        StringsResult,
        TraceError,
    >)
        requires
            self.session(session_id@) matches Some(s) ==> strings_numbered(s),
        ensures
            match self.session(session_id@) {
                None => r matches Err(e) && is_unknown_session(e, session_id@),
                Some(s) => match s.string_index {
                    None => r matches Err(TraceError::IndexNotReady),
                    Some(index) => r matches Ok(d) && shows_page(
                        d,
                        index.strings@,
                        selected(
                            index.strings@,
                            options.min_len,
                            lowered(options.search),
                            index.strings@.len() as int,
                        ),
                        options.offset,
                        options.limit,
                    ),
                },
            },
    {
        let state = match self.get_handle(session_id) {
            Ok(state) => state,
            Err(e) => {
                return Err(e);
            },
        };
        match &state.string_index {
            Some(index) => {
                let chosen = select(index, options.min_len, &options.search);
                Ok(string_page(index, &chosen, options.offset, options.limit))
            },
            None => Err(TraceError::IndexNotReady),
        }
    }

    /// The accesses to a string, one per line, ascending by line.
    pub fn get_string_xrefs(&self, session_id: &str, addr: u64, byte_len: u32) -> (r: Result<
        Vec<StringXRef>,
        TraceError,
    >)
        requires
            addr + byte_len <= u64::MAX + 1,
        ensures
            match self.session(session_id@) {
                None => r matches Err(e) && is_unknown_session(e, session_id@),
                Some(s) => match s.mem_accesses {
                    None => r matches Err(TraceError::IndexNotReady),
                    Some(m) => if s.lines is None {
                        r matches Err(TraceError::IndexNotReady)
                    } else {
                        r matches Ok(x) && shows_xrefs(
                            x@,
                            accesses_to(m@, addr, byte_len as int),
                            s.lines,
                        )
                    },
                },
            },
    {
        let state = match self.get_handle(session_id) {
            Ok(state) => state,
            Err(e) => {
                return Err(e);
            },
        };
        let m: &MemAccessIndex = match &state.mem_accesses {
            Some(m) => m,
            None => {
                return Err(TraceError::IndexNotReady);
            },
        };
        if state.lines.is_none() {
            return Err(TraceError::IndexNotReady);
        }
        Ok(string_xrefs(m, &state.lines, addr, byte_len))
    }
}

// ---------------------------------------------------------------------------
// The scan for strings
// ---------------------------------------------------------------------------

/// Accesses after which a running scan looks for a request to stop.
pub const STOP_INTERVAL: usize = 10000;

pub open spec fn access_direction(rw: MemRw) -> StringRw {
    match rw {
        MemRw::Read => StringRw::Read,
        MemRw::Write => StringRw::Write,
    }
}

/// The accesses to an address that can hold text: those of up to 8 bytes.
pub open spec fn text_accesses(records: Seq<MemAccessRecord>, addr: u64) -> Seq<StringAccess>
    decreases records.len(),
{
    if records.len() == 0 {
        Seq::empty()
    } else {
        let r = records.last();
        let earlier = text_accesses(records.drop_last(), addr);
        if r.size <= 8 {
            earlier.push((addr, r.data, r.size, r.seq, access_direction(r.rw)))
        } else {
            earlier
        }
    }
}

/// All accesses that can hold text, ascending by line.
pub open spec fn is_string_input(
    s: Seq<StringAccess>,
    m: Map<u64, Seq<MemAccessRecord>>,
) -> bool {
    &&& forall|i: int, j: int| #![trigger s[i], s[j]] 0 <= i <= j < s.len() ==> s[i].3 <= s[j].3
    &&& forall|e: StringAccess| #[trigger]
        s.to_multiset().count(e) == text_accesses(accesses_at(m, e.0), e.0).to_multiset().count(e)
}

/// Accesses with their lines.
spec fn with_lines(s: Seq<StringAccess>) -> Seq<(u64, StringAccess)> {
    s.map_values(|e: StringAccess| (e.3 as u64, e))
}

spec fn without_lines(s: Seq<(u64, StringAccess)>) -> Seq<StringAccess> {
    s.map_values(|p: (u64, StringAccess)| p.1)
}

proof fn lemma_lines_count(s: Seq<(u64, StringAccess)>, e: StringAccess)
    requires
        forall|i: int| #![trigger s[i]] 0 <= i < s.len() ==> s[i].0 == s[i].1.3,
    ensures
        without_lines(s).to_multiset().count(e) == s.to_multiset().count((e.3 as u64, e)),
    decreases s.len(),
{
    broadcast use vstd::seq_lib::group_to_multiset_ensures;

    if s.len() == 0 {
        assert(without_lines(s) =~= Seq::empty());
    } else {
        let rest = s.drop_last();
        assert forall|i: int| #![trigger rest[i]] 0 <= i < rest.len() implies rest[i].0
            == rest[i].1.3 by {
            assert(rest[i] == s[i]);
        }
        lemma_lines_count(rest, e);
        assert(s =~= rest.push(s.last()));
        assert(without_lines(s) =~= without_lines(rest).push(s.last().1));
        assert(s[s.len() - 1].0 == s[s.len() - 1].1.3);
    }
}

proof fn lemma_other_address(records: Seq<MemAccessRecord>, addr: u64, e: StringAccess)
    requires
        e.0 != addr,
    ensures
        text_accesses(records, addr).to_multiset().count(e) == 0,
    decreases records.len(),
{
    broadcast use vstd::seq_lib::group_to_multiset_ensures;

    if records.len() > 0 {
        lemma_other_address(records.drop_last(), addr, e);
    }
}

proof fn lemma_concat_count(a: Seq<StringAccess>, b: Seq<StringAccess>, e: StringAccess)
    ensures
        (a + b).to_multiset().count(e) == a.to_multiset().count(e) + b.to_multiset().count(e),
    decreases b.len(),
{
    broadcast use vstd::seq_lib::group_to_multiset_ensures;

    if b.len() == 0 {
        assert(a + b =~= a);
    } else {
        lemma_concat_count(a, b.drop_last(), e);
        assert(a + b =~= (a + b.drop_last()).push(b.last()));
        assert(b =~= b.drop_last().push(b.last()));
    }
}

/// The accesses of the first `n` addresses.
spec fn gathered(keys: Seq<u64>, m: Map<u64, Seq<MemAccessRecord>>, n: int) -> Seq<StringAccess>
    decreases n,
{
    if n <= 0 {
        Seq::empty()
    } else {
        gathered(keys, m, n - 1) + text_accesses(accesses_at(m, keys[n - 1]), keys[n - 1])
    }
}

proof fn lemma_gathered(
    keys: Seq<u64>,
    m: Map<u64, Seq<MemAccessRecord>>,
    n: int,
    e: StringAccess,
)
    requires
        0 <= n <= keys.len(),
        forall|i: int, j: int|
            #![trigger keys[i], keys[j]]
            0 <= i < j < keys.len() ==> keys[i] != keys[j],
    ensures
        gathered(keys, m, n).to_multiset().count(e) == (if exists|i: int|
            #![trigger keys[i]]
            0 <= i < n && keys[i] == e.0 {
            text_accesses(accesses_at(m, e.0), e.0).to_multiset().count(e)
        } else {
            0
        }),
    decreases n,
{
    broadcast use vstd::seq_lib::group_to_multiset_ensures;

    if n > 0 {
        lemma_gathered(keys, m, n - 1, e);
        let here = text_accesses(accesses_at(m, keys[n - 1]), keys[n - 1]);
        lemma_concat_count(gathered(keys, m, n - 1), here, e);
        if keys[n - 1] != e.0 {
            lemma_other_address(accesses_at(m, keys[n - 1]), keys[n - 1], e);
        } else {
            assert forall|i: int| #![trigger keys[i]] 0 <= i < n - 1 implies keys[i] != e.0 by {
                assert(keys[i] != keys[n - 1]);
            }
        }
    }
}

fn gather(m: &MemAccessIndex, keys: &Vec<u64>) -> (list: Vec<(u64, StringAccess)>)
    ensures
        list@ == with_lines(gathered(keys@, m@, keys@.len() as int)),
{
    let mut list: Vec<(u64, StringAccess)> = Vec::new();
    assert(list@ =~= with_lines(gathered(keys@, m@, 0)));
    let mut i: usize = 0;
    while i < keys.len()
        invariant
            i <= keys@.len(),
            list@ == with_lines(gathered(keys@, m@, i as int)),
        decreases keys@.len() - i,
    {
        let addr: u64 = keys[i];
        let ghost start = gathered(keys@, m@, i as int);
        let ghost here = accesses_at(m@, addr);
        if let Some(records) = m.get(addr) {
            let mut k: usize = 0;
            assert(here.take(0) =~= Seq::empty());
            assert(start + text_accesses(here.take(0), addr) =~= start);
            while k < records.len()
                invariant
                    k <= records@.len(),
                    here == records@,
                    list@ == with_lines(start + text_accesses(here.take(k as int), addr)),
                decreases records@.len() - k,
            {
                let r: MemAccessRecord = records[k];
                let ghost before = start + text_accesses(here.take(k as int), addr);
                assert(here.take(k + 1).drop_last() =~= here.take(k as int));
                if r.size <= 8 {
                    let rw: StringRw = match r.rw {
                        MemRw::Read => StringRw::Read,
                        MemRw::Write => StringRw::Write,
                    };
                    let ghost e: StringAccess = (addr, r.data, r.size, r.seq, rw);
                    list.push((r.seq as u64, (addr, r.data, r.size, r.seq, rw)));
                    assert(start + text_accesses(here.take(k + 1), addr) =~= before.push(e));
                    assert(list@ =~= with_lines(before.push(e)));
                }
                k += 1;
            }
            assert(here.take(here.len() as int) =~= here);
        } else {
            assert(start + text_accesses(here, addr) =~= start);
        }
        i += 1;
    }
    list
}

/// The accesses that a scan for strings goes through.
pub fn string_input(m: &MemAccessIndex) -> (s: Vec<StringAccess>)
    ensures
        is_string_input(s@, m@),
{
    let keys = m.addresses();
    let mut list = gather(m, &keys);
    let ghost all = gathered(keys@, m@, keys@.len() as int);
    let ghost before = list@;
    foreign::sort_by_first(&mut list);
    let ghost sorted = list@;
    proof {
        broadcast use vstd::seq_lib::group_to_multiset_ensures;

        assert(sorted.to_multiset().len() == sorted.len());
        assert(before.to_multiset().len() == before.len());
        assert forall|i: int| #![trigger sorted[i]] 0 <= i < sorted.len() implies sorted[i].0
            == sorted[i].1.3 by {
            assert(sorted.contains(sorted[i]));
            assert(sorted.to_multiset().count(sorted[i]) > 0);
            assert(before.to_multiset().count(sorted[i]) > 0);
            assert(before.contains(sorted[i]));
            let w = choose|w: int| 0 <= w < before.len() && before[w] == sorted[i];
            assert(before[w] == (all[w].3 as u64, all[w]));
        }
    }
    let mut s: Vec<StringAccess> = Vec::new();
    let mut i: usize = 0;
    while i < list.len()
        invariant
            i <= list@.len(),
            list@ == sorted,
            s@ =~= without_lines(sorted).take(i as int),
        decreases list@.len() - i,
    {
        s.push(list[i].1);
        i += 1;
    }
    proof {
        assert(s@ =~= without_lines(sorted));
        assert forall|a: int, b: int| #![trigger s@[a], s@[b]] 0 <= a <= b < s@.len() implies s@[a].3
            <= s@[b].3 by {
            assert(sorted[a].0 <= sorted[b].0);
        }
        assert forall|e: StringAccess| #[trigger] s@.to_multiset().count(e) == text_accesses(
            accesses_at(m@, e.0),
            e.0,
        ).to_multiset().count(e) by {
            lemma_lines_count(sorted, e);
            assert forall|i: int| #![trigger before[i]] 0 <= i < before.len() implies before[i].0
                == before[i].1.3 by {
                assert(before[i] == (all[i].3 as u64, all[i]));
            }
            lemma_lines_count(before, e);
            assert(without_lines(before) =~= all);
            lemma_gathered(keys@, m@, keys@.len() as int, e);
            if !m@.contains_key(e.0) {
                broadcast use vstd::seq_lib::group_to_multiset_ensures;

                assert(text_accesses(accesses_at(m@, e.0), e.0) =~= Seq::empty());
                assert forall|i: int| #![trigger keys@[i]] 0 <= i < keys@.len() implies keys@[i]
                    != e.0 by {
                    assert(m@.contains_key(keys@[i]));
                }
            }
        }
    }
    s
}

pub open spec fn already_scanning_text() -> Seq<char> {
    "scan_strings already running"@
}

/// The error says that a scan is running.
pub open spec fn is_busy(e: TraceError) -> bool {
    e matches TraceError::OperationInProgress(s) && s@ == already_scanning_text()
}

impl TraceEngine {
    /// Begins a scan for strings and hands out the accesses that it goes
    /// through. There is one scan at a time.
    pub fn scan_strings(&mut self, session_id: &str) -> (r: Result<Vec<StringAccess>, TraceError>)
        ensures
            match old(self).place(session_id@) {
                None => (r matches Err(e) && is_unknown_session(e, session_id@))
                    && final(self).sessions@ == old(self).sessions@,
                Some(i) => {
                    let s = old(self).sessions@[i];
                    if s.scanning_strings {
                        (r matches Err(e) && is_busy(e)) && final(self).sessions@
                            == old(self).sessions@
                    } else {
                        match s.mem_accesses {
                            None => (r matches Err(TraceError::IndexNotReady))
                                && final(self).sessions@ == old(self).sessions@,
                            Some(m) => (r matches Ok(list) && is_string_input(list@, m@))
                                && final(self).sessions@ == old(self).sessions@.update(
                                i,
                                TraceSession {
                                    scanning_strings: true,
                                    scan_strings_cancel: false,
                                    ..s
                                },
                            ),
                        }
                    }
                },
            },
    {
        let i: usize = match self.find_session(session_id) {
            Some(i) => i,
            None => {
                return Err(TraceError::SessionNotFound(session_id.to_owned()));
            },
        };
        if self.sessions[i].scanning_strings {
            return Err(
                TraceError::OperationInProgress("scan_strings already running".to_owned()),
            );
        }
        let list: Vec<StringAccess> = match &self.sessions[i].mem_accesses {
            Some(m) => string_input(m),
            None => {
                return Err(TraceError::IndexNotReady);
            },
        };
        self.sessions[i].scanning_strings = true;
        self.sessions[i].scan_strings_cancel = false;
        Ok(list)
    }

    /// Whether a running scan is to stop after so many accesses. It looks for a
    /// request only now and then.
    pub fn scan_strings_stops(&self, session_id: &str, done: usize) -> (b: bool)
        ensures
            b == (done % STOP_INTERVAL == 0 && (self.session(session_id@) matches Some(s)
                && s.scan_strings_cancel)),
    {
        if done % STOP_INTERVAL != 0 {
            return false;
        }
        match self.find_session(session_id) {
            Some(i) => self.sessions[i].scan_strings_cancel,
            None => false,
        }
    }

    /// Ends a scan: what it found replaces what was known, a scan that stopped
    /// leaves it as it was.
    pub fn finish_scan_strings(&mut self, session_id: &str, found: Option<StringIndex>) -> (r: Result<
        (),
        TraceError,
    >)
        ensures
            match old(self).place(session_id@) {
                None => (r matches Err(e) && is_unknown_session(e, session_id@))
                    && final(self).sessions@ == old(self).sessions@,
                Some(i) => {
                    let s = old(self).sessions@[i];
                    match found {
                        Some(index) => r is Ok && final(self).sessions@
                            == old(self).sessions@.update(
                            i,
                            TraceSession {
                                scanning_strings: false,
                                string_index: Some(index),
                                ..s
                            },
                        ),
                        None => (r matches Err(TraceError::Cancelled)) && final(self).sessions@
                            == old(self).sessions@.update(
                            i,
                            TraceSession { scanning_strings: false, ..s },
                        ),
                    }
                },
            },
    {
        let i: usize = match self.find_session(session_id) {
            Some(i) => i,
            None => {
                return Err(TraceError::SessionNotFound(session_id.to_owned()));
            },
        };
        self.sessions[i].scanning_strings = false;
        match found {
            Some(index) => {
                self.sessions[i].string_index = Some(index);
                Ok(())
            },
            None => Err(TraceError::Cancelled),
        }
    }

    /// Asks a running scan to stop; a session that is not open is ignored.
    pub fn cancel_scan_strings(&mut self, session_id: &str)
        ensures
            match old(self).place(session_id@) {
                None => final(self).sessions@ == old(self).sessions@,
                Some(i) => final(self).sessions@ == old(self).sessions@.update(
                    i,
                    TraceSession { scan_strings_cancel: true, ..old(self).sessions@[i] },
                ),
            },
    {
        if let Some(i) = self.find_session(session_id) {
            self.sessions[i].scan_strings_cancel = true;
        }
    }
}

} // verus!
