//! Cache files of a trace: their names, headers and contents.
//!
//! A cache is bound to the length of the trace and to the hash of its first
//! part. There are two kinds: payloads behind a short header, and sections
//! behind a longer one.

use crate::bytes::{hex_text, le64, push_all, push_le64, same_bytes, to_hex};
use crate::flat::archives::{
    line_index_ok, phase2_ok, scan_ok, LineIndexArchive, Phase2Archive, ScanArchive, HEADER_LEN,
};
use crate::memory_search::identity::{digest, sha256};
use crate::text::{chars_of, contains_text, find_last_text, found_last, holds_text, push_text};
use vstd::prelude::*;
use vstd::string::*;
use vstd::utf8::*;

verus! {

/// Bytes of the trace that the hash covers.
pub const HEAD_SIZE: usize = 1048576;

/// Length of the short header.
pub const SHORT_HEADER_LEN: usize = 48;

// ---------------------------------------------------------------------------
// Names
// ---------------------------------------------------------------------------

/// What the names of the caches of a trace begin with.
pub open spec fn path_text(file_path: Seq<char>) -> Seq<char> {
    hex_text(digest(encode_utf8(file_path)))
}

/// What the names of the caches of a trace begin with: the hash of its path.
pub fn path_hash(file_path: &str) -> (s: String)
    ensures
        s@ == path_text(file_path@),
{
    to_hex(sha256(file_path.as_bytes()).as_slice())
}

/// Name of a payload cache.
pub fn cache_name(file_path: &str, suffix: &str) -> (s: String)
    ensures
        s@ == path_text(file_path@) + suffix@ + ".bin"@,
{
    let mut s = path_hash(file_path);
    push_text(&mut s, suffix);
    push_text(&mut s, ".bin");
    s
}

/// Name of a section cache.
pub fn cache_name_ext(file_path: &str, suffix: &str) -> (s: String)
    ensures
        s@ == path_text(file_path@) + suffix@,
{
    let mut s = path_hash(file_path);
    push_text(&mut s, suffix);
    s
}

pub open spec fn string_seqs(s: Seq<String>) -> Seq<Seq<char>> {
    s.map_values(|t: String| t@)
}

/// The names of all caches of a trace, those of earlier kinds included.
pub open spec fn all_names(file_path: Seq<char>) -> Seq<Seq<char>> {
    let h = path_text(file_path);
    Seq::empty()
        .push(h + ".p2.cache"@)
        .push(h + ".scan.cache"@)
        .push(h + ".lidx.cache"@)
        .push(h + ".strings.bin"@)
        .push(h + ".gum-extra.bin"@)
        .push(h + ".crypto.bin"@)
        .push(h + ".p2.rkyv"@)
        .push(h + ".scan.rkyv"@)
        .push(h + ".lidx.rkyv"@)
        .push(h + ""@ + ".bin"@)
        .push(h + "-scan"@ + ".bin"@)
        .push(h + "-lidx"@ + ".bin"@)
}

fn push_name(names: &mut Vec<String>, name: String)
    ensures
        string_seqs(final(names)@) == string_seqs(old(names)@).push(name@),
{
    let ghost before = names@;
    names.push(name);
    assert(string_seqs(names@) =~= string_seqs(before).push(name@));
}

/// The names of the files to remove with a trace.
pub fn delete_cache(file_path: &str) -> (names: Vec<String>)
    ensures
        string_seqs(names@) == all_names(file_path@),
{
    let mut names: Vec<String> = Vec::new();
    assert(string_seqs(names@) =~= Seq::empty());
    push_name(&mut names, cache_name_ext(file_path, ".p2.cache"));
    push_name(&mut names, cache_name_ext(file_path, ".scan.cache"));
    push_name(&mut names, cache_name_ext(file_path, ".lidx.cache"));
    push_name(&mut names, cache_name_ext(file_path, ".strings.bin"));
    push_name(&mut names, cache_name_ext(file_path, ".gum-extra.bin"));
    push_name(&mut names, cache_name_ext(file_path, ".crypto.bin"));
    push_name(&mut names, cache_name_ext(file_path, ".p2.rkyv"));
    push_name(&mut names, cache_name_ext(file_path, ".scan.rkyv"));
    push_name(&mut names, cache_name_ext(file_path, ".lidx.rkyv"));
    push_name(&mut names, cache_name(file_path, ""));
    push_name(&mut names, cache_name(file_path, "-scan"));
    push_name(&mut names, cache_name(file_path, "-lidx"));
    names
}

/// The extension of a file name: what follows the last dot, unless the name
/// begins with it.
pub open spec fn extension_of(name: Seq<char>) -> Option<Seq<char>> {
    match found_last(name, "."@) {
        Some(i) => if i > 0 && name != ".."@ {
            Some(name.skip(i + 1))
        } else {
            None
        },
        None => None,
    }
}

/// The file is a cache or was to become one.
pub open spec fn is_cache_name(name: Seq<char>) -> bool {
    ||| name.len() > 0 && name[0] == '.' && holds_text(name, ".tmp."@)
    ||| extension_of(name) == Some("bin"@)
    ||| extension_of(name) == Some("rkyv"@)
    ||| extension_of(name) == Some("cache"@)
}

/// Whether a file is cleared with the caches.
pub fn is_cache_file(name: &str) -> (b: bool)
    ensures
        b == is_cache_name(name@),
{
    proof {
        reveal_strlit(".");
        reveal_strlit("..");
    }
    let v = chars_of(name);
    if v.len() > 0 && v[0] == '.' && contains_text(name, ".tmp.") {
        return true;
    }
    let len: usize = v.len();
    assert(v@.take(len as int) =~= v@);
    match find_last_text(&v, ".", len) {
        Some(i) => {
            if i == 0 || name.to_owned() == "..".to_owned() {
                return false;
            }
            let tail = name.substring_char(i + 1, name.unicode_len());
            assert(tail@ =~= name@.skip(i + 1));
            let ext = tail.to_owned();
            ext == "bin".to_owned() || ext == "rkyv".to_owned() || ext == "cache".to_owned()
        },
        None => false,
    }
}

// ---------------------------------------------------------------------------
// Headers
// ---------------------------------------------------------------------------

/// `TCACHE03`
pub open spec fn payload_magic() -> Seq<u8> {
    seq![84u8, 67u8, 65u8, 67u8, 72u8, 69u8, 48u8, 51u8]
}

/// `TCACHE06`
pub open spec fn section_magic() -> Seq<u8> {
    seq![84u8, 67u8, 65u8, 67u8, 72u8, 69u8, 48u8, 54u8]
}

/// The mark of payload caches.
pub fn magic() -> (m: [u8; 8])
    ensures
        m@ == payload_magic(),
{
    let m: [u8; 8] = [84, 67, 65, 67, 72, 69, 48, 51];
    assert(m@ =~= payload_magic());
    m
}

/// The mark of section caches. It changes with the layout, so that a file in an
/// earlier layout is not taken for one in this.
pub fn magic_v6() -> (m: [u8; 8])
    ensures
        m@ == section_magic(),
{
    let m: [u8; 8] = [84, 67, 65, 67, 72, 69, 48, 54];
    assert(m@ =~= section_magic());
    m
}

/// The part of a trace that the hash covers.
pub open spec fn head_of(data: Seq<u8>) -> Seq<u8> {
    if data.len() <= HEAD_SIZE {
        data
    } else {
        data.take(HEAD_SIZE as int)
    }
}

fn head_hash(data: &[u8]) -> (h: [u8; 32])
    ensures
        h@ == digest(head_of(data@)),
{
    if data.len() <= HEAD_SIZE {
        sha256(data)
    } else {
        let head = vstd::slice::slice_subrange(data, 0, HEAD_SIZE);
        assert(head@ =~= head_of(data@));
        sha256(head)
    }
}

/// What a header says of a trace.
pub open spec fn trace_mark(mark: Seq<u8>, data: Seq<u8>) -> Seq<u8> {
    mark + le64(data.len() as u64) + digest(head_of(data))
}

fn push_trace_mark(out: &mut Vec<u8>, mark: &[u8; 8], data: &[u8])
    ensures
        final(out)@ == old(out)@ + trace_mark(mark@, data@),
{
    let ghost start = out@;
    push_all(out, mark.as_slice());
    push_le64(out, data.len() as u64);
    let h = head_hash(data);
    push_all(out, h.as_slice());
    assert(out@ =~= start + trace_mark(mark@, data@));
}

proof fn lemma_trace_mark_len(mark: Seq<u8>, data: Seq<u8>)
    requires
        mark.len() == 8,
    ensures
        trace_mark(mark, data).len() == SHORT_HEADER_LEN,
{
    crate::bytes::law_le64_read_back(data.len() as u64);
}

/// The file begins with what a header says of the trace.
pub open spec fn marked_for(file: Seq<u8>, mark: Seq<u8>, data: Seq<u8>) -> bool {
    file.len() >= SHORT_HEADER_LEN && file.take(SHORT_HEADER_LEN as int) == trace_mark(mark, data)
}

fn is_marked(file: &[u8], mark: &[u8; 8], data: &[u8]) -> (b: bool)
    ensures
        b == marked_for(file@, mark@, data@),
{
    if file.len() < SHORT_HEADER_LEN {
        return false;
    }
    let mut expected: Vec<u8> = Vec::new();
    push_trace_mark(&mut expected, mark, data);
    assert(expected@ =~= trace_mark(mark@, data@));
    let head = vstd::slice::slice_subrange(file, 0, SHORT_HEADER_LEN);
    assert(head@ =~= file@.take(SHORT_HEADER_LEN as int));
    same_bytes(head, expected.as_slice())
}

/// Whether the short header of a file belongs to the trace.
pub fn validate_header(buf: &[u8], data: &[u8]) -> (b: bool)
    ensures
        b == marked_for(buf@, payload_magic(), data@),
{
    is_marked(buf, &magic(), data)
}

// ---------------------------------------------------------------------------
// Payloads
// ---------------------------------------------------------------------------

/// A payload behind its header.
pub open spec fn payload_file(data: Seq<u8>, payload: Seq<u8>) -> Seq<u8> {
    trace_mark(payload_magic(), data) + payload
}

/// The file that keeps a payload for a trace.
pub fn save_bincode_raw(data: &[u8], payload: &[u8]) -> (file: Vec<u8>)
    ensures
        file@ == payload_file(data@, payload@),
{
    let mut file: Vec<u8> = Vec::new();
    push_trace_mark(&mut file, &magic(), data);
    push_all(&mut file, payload);
    assert(file@ =~= payload_file(data@, payload@));
    file
}

/// The payload of a file, if it was kept for the trace.
pub fn load_cached<'a>(file: &'a [u8], data: &[u8]) -> (r: Option<&'a [u8]>)
    ensures
        match r {
            Some(payload) => file@ == payload_file(data@, payload@),
            None => forall|payload: Seq<u8>| file@ != #[trigger] payload_file(data@, payload),
        },
{
    proof {
        lemma_trace_mark_len(payload_magic(), data@);
    }
    if !validate_header(file, data) {
        proof {
            assert forall|payload: Seq<u8>| file@ != #[trigger] payload_file(data@, payload) by {
                assert(payload_file(data@, payload).take(SHORT_HEADER_LEN as int) =~= trace_mark(
                    payload_magic(),
                    data@,
                ));
            }
        }
        return None;
    }
    let payload = vstd::slice::slice_subrange(file, SHORT_HEADER_LEN, file.len());
    assert(file@ =~= file@.take(SHORT_HEADER_LEN as int) + payload@);
    Some(payload)
}

/// Name and content of a file.
pub struct NamedFile {
    pub name: String,
    pub content: Vec<u8>,
}

/// The file is the payload cache of that kind.
pub open spec fn is_payload_cache(
    f: NamedFile,
    file_path: Seq<char>,
    suffix: Seq<char>,
    data: Seq<u8>,
    payload: Seq<u8>,
) -> bool {
    &&& f.name@ == path_text(file_path) + suffix + ".bin"@
    &&& f.content@ == payload_file(data, payload)
}

/// The cache of the strings of a trace, given as bytes.
pub fn save_string_cache(file_path: &str, data: &[u8], payload: &[u8]) -> (f: NamedFile)
    ensures
        is_payload_cache(f, file_path@, ".strings"@, data@, payload@),
{
    NamedFile {
        name: cache_name(file_path, ".strings"),
        content: save_bincode_raw(data, payload),
    }
}

/// The strings of a trace, as bytes.
pub fn load_string_cache<'a>(file: &'a [u8], data: &[u8]) -> (r: Option<&'a [u8]>)
    ensures
        match r {
            Some(payload) => file@ == payload_file(data@, payload@),
            None => forall|payload: Seq<u8>| file@ != #[trigger] payload_file(data@, payload),
        },
{
    load_cached(file, data)
}

/// The cache of the crypto scan of a trace, given as bytes.
pub fn save_crypto_cache(file_path: &str, data: &[u8], payload: &[u8]) -> (f: NamedFile)
    ensures
        is_payload_cache(f, file_path@, ".crypto"@, data@, payload@),
{
    NamedFile {
        name: cache_name(file_path, ".crypto"),
        content: save_bincode_raw(data, payload),
    }
}

/// The crypto scan of a trace, as bytes.
pub fn load_crypto_cache<'a>(file: &'a [u8], data: &[u8]) -> (r: Option<&'a [u8]>)
    ensures
        match r {
            Some(payload) => file@ == payload_file(data@, payload@),
            None => forall|payload: Seq<u8>| file@ != #[trigger] payload_file(data@, payload),
        },
{
    load_cached(file, data)
}

/// The cache of the annotations of a trace, given as bytes.
pub fn save_gumtrace_extra(file_path: &str, data: &[u8], payload: &[u8]) -> (f: NamedFile)
    ensures
        is_payload_cache(f, file_path@, ".gum-extra"@, data@, payload@),
{
    NamedFile {
        name: cache_name(file_path, ".gum-extra"),
        content: save_bincode_raw(data, payload),
    }
}

/// The annotations of a trace, as bytes.
pub fn load_gumtrace_extra<'a>(file: &'a [u8], data: &[u8]) -> (r: Option<&'a [u8]>)
    ensures
        match r {
            Some(payload) => file@ == payload_file(data@, payload@),
            None => forall|payload: Seq<u8>| file@ != #[trigger] payload_file(data@, payload),
        },
{
    load_cached(file, data)
}

// ---------------------------------------------------------------------------
// Sections
// ---------------------------------------------------------------------------

/// Sections behind their header.
pub open spec fn section_file(data: Seq<u8>, sections: Seq<u8>) -> Seq<u8> {
    trace_mark(section_magic(), data) + Seq::new(16, |i: int| 0u8) + sections
}

/// The file that keeps sections for a trace.
pub fn save_sections_raw(data: &[u8], section_bytes: &[u8]) -> (file: Vec<u8>)
    ensures
        file@ == section_file(data@, section_bytes@),
{
    proof {
        lemma_trace_mark_len(section_magic(), data@);
    }
    let mut file: Vec<u8> = Vec::new();
    push_trace_mark(&mut file, &magic_v6(), data);
    let ghost mark = trace_mark(section_magic(), data@);
    assert(file@ =~= mark);
    while file.len() < HEADER_LEN
        invariant
            SHORT_HEADER_LEN <= file@.len() <= HEADER_LEN,
            mark.len() == SHORT_HEADER_LEN,
            file@ =~= mark + Seq::new((file@.len() - SHORT_HEADER_LEN) as nat, |i: int| 0u8),
        decreases HEADER_LEN - file@.len(),
    {
        file.push(0);
    }
    push_all(&mut file, section_bytes);
    assert(file@ =~= section_file(data@, section_bytes@));
    file
}

/// Which sections a file has to hold.
#[derive(Debug, Clone, Copy, PartialEq, Eq, Structural)]
pub enum SectionKind {
    /// `.p2.cache`
    Phase2,
    /// `.scan.cache`
    Scan,
    /// `.lidx.cache`
    LineIndex,
}

/// The sections have the layout of their kind.
pub open spec fn layout_ok(kind: SectionKind, sections: Seq<u8>) -> bool {
    match kind {
        SectionKind::Phase2 => phase2_ok(sections),
        SectionKind::Scan => scan_ok(sections),
        SectionKind::LineIndex => line_index_ok(sections),
    }
}

/// The file was kept for the trace, and its sections have the layout of their
/// kind.
pub open spec fn usable(kind: SectionKind, file: Seq<u8>, data: Seq<u8>) -> bool {
    &&& file.len() >= HEADER_LEN
    &&& marked_for(file, section_magic(), data)
    &&& layout_ok(kind, file.skip(HEADER_LEN as int))
}

/// The sections of a file, if it can be used. A file that is damaged in any way
/// is not used at all.
pub fn load_sections<'a>(kind: SectionKind, file: &'a [u8], data: &[u8]) -> (r: Option<&'a [u8]>)
    ensures
        match r {
            Some(sections) => usable(kind, file@, data@) && sections@ == file@.skip(
                HEADER_LEN as int,
            ),
            None => !usable(kind, file@, data@),
        },
{
    if file.len() < HEADER_LEN || !is_marked(file, &magic_v6(), data) {
        return None;
    }
    let sections = vstd::slice::slice_subrange(file, HEADER_LEN, file.len());
    assert(sections@ =~= file@.skip(HEADER_LEN as int));
    let ok: bool = match kind {
        SectionKind::Phase2 => Phase2Archive::views_from_sections(sections).is_some(),
        SectionKind::Scan => ScanArchive::views_from_sections(sections).is_some(),
        SectionKind::LineIndex => LineIndexArchive::views_from_sections(sections).is_some(),
    };
    if ok {
        Some(sections)
    } else {
        None
    }
}

/// The accesses, snapshots and trees of a trace.
pub fn load_phase2_cache<'a>(file: &'a [u8], data: &[u8]) -> (r: Option<&'a [u8]>)
    ensures
        match r {
            Some(sections) => usable(SectionKind::Phase2, file@, data@) && sections@ == file@.skip(
                HEADER_LEN as int,
            ),
            None => !usable(SectionKind::Phase2, file@, data@),
        },
{
    load_sections(SectionKind::Phase2, file, data)
}

/// The scan of a trace.
pub fn load_scan_cache<'a>(file: &'a [u8], data: &[u8]) -> (r: Option<&'a [u8]>)
    ensures
        match r {
            Some(sections) => usable(SectionKind::Scan, file@, data@) && sections@ == file@.skip(
                HEADER_LEN as int,
            ),
            None => !usable(SectionKind::Scan, file@, data@),
        },
{
    load_sections(SectionKind::Scan, file, data)
}

/// The line index of a trace.
pub fn load_lidx_cache<'a>(file: &'a [u8], data: &[u8]) -> (r: Option<&'a [u8]>)
    ensures
        match r {
            Some(sections) => usable(SectionKind::LineIndex, file@, data@) && sections@
                == file@.skip(HEADER_LEN as int),
            None => !usable(SectionKind::LineIndex, file@, data@),
        },
{
    load_sections(SectionKind::LineIndex, file, data)
}

// ---------------------------------------------------------------------------
// Laws
// ---------------------------------------------------------------------------

/// A payload is read back as it was kept, and for no trace of another length or
/// another beginning by hash.
pub proof fn law_payload_reads_back(
    data: Seq<u8>,
    payload: Seq<u8>,
    other: Seq<u8>,
    found: Seq<u8>,
)
    requires
        data.len() <= u64::MAX,
        other.len() <= u64::MAX,
    ensures
        payload_file(data, payload) == payload_file(other, found) <==> payload == found
            && data.len() == other.len() && digest(head_of(data)) == digest(head_of(other)),
{
    lemma_trace_mark_len(payload_magic(), data);
    lemma_trace_mark_len(payload_magic(), other);
    if payload_file(data, payload) == payload_file(other, found) {
        let a = trace_mark(payload_magic(), data);
        let b = trace_mark(payload_magic(), other);
        assert(payload_file(data, payload).take(48) =~= a);
        assert(payload_file(other, found).take(48) =~= b);
        assert(payload_file(data, payload).skip(48) =~= payload);
        assert(payload_file(other, found).skip(48) =~= found);
        crate::bytes::law_le64_read_back(data.len() as u64);
        crate::bytes::law_le64_read_back(other.len() as u64);
        assert(a.subrange(8, 16) =~= le64(data.len() as u64));
        assert(b.subrange(8, 16) =~= le64(other.len() as u64));
        assert(a.skip(16) =~= digest(head_of(data)));
        assert(b.skip(16) =~= digest(head_of(other)));
    }
}

/// Sections are used for the trace that they were kept for.
pub proof fn law_sections_are_usable(kind: SectionKind, data: Seq<u8>, sections: Seq<u8>)
    requires
        layout_ok(kind, sections),
    ensures
        usable(kind, section_file(data, sections), data),
        section_file(data, sections).skip(HEADER_LEN as int) == sections,
{
    lemma_trace_mark_len(section_magic(), data);
    let file = section_file(data, sections);
    assert(file.take(48) =~= trace_mark(section_magic(), data));
    assert(file.skip(64) =~= sections);
}

/// Sections are used for no trace of another length or another beginning by
/// hash.
pub proof fn law_sections_belong_to_their_trace(
    kind: SectionKind,
    data: Seq<u8>,
    sections: Seq<u8>,
    other: Seq<u8>,
)
    requires
        data.len() <= u64::MAX,
        other.len() <= u64::MAX,
        usable(kind, section_file(data, sections), other),
    ensures
        data.len() == other.len(),
        digest(head_of(data)) == digest(head_of(other)),
{
    lemma_trace_mark_len(section_magic(), data);
    lemma_trace_mark_len(section_magic(), other);
    let a = trace_mark(section_magic(), data);
    let b = trace_mark(section_magic(), other);
    assert(section_file(data, sections).take(48) =~= a);
    crate::bytes::law_le64_read_back(data.len() as u64);
    crate::bytes::law_le64_read_back(other.len() as u64);
    assert(a.subrange(8, 16) =~= le64(data.len() as u64));
    assert(b.subrange(8, 16) =~= le64(other.len() as u64));
    assert(a.skip(16) =~= digest(head_of(data)));
    assert(b.skip(16) =~= digest(head_of(other)));
}

/// The two kinds of cache are never taken for each other.
pub proof fn law_kinds_differ(data: Seq<u8>, other: Seq<u8>, payload: Seq<u8>, kind: SectionKind)
    ensures
        !usable(kind, payload_file(data, payload), other),
{
    lemma_trace_mark_len(payload_magic(), data);
    lemma_trace_mark_len(section_magic(), other);
    let file = payload_file(data, payload);
    if usable(kind, file, other) {
        assert(file.take(48)[7] == trace_mark(section_magic(), other)[7]);
        assert(trace_mark(section_magic(), other)[7] == 54);
        assert(file[7] == 51);
    }
}

} // verus!
