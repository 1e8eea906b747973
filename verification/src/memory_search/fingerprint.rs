//! Reuse of the hash of a trace that is handed over as an open file.
//!
//! The hash is kept under the identity of the file. It is reused only while
//! that identity stands; a change that is seen at any step voids the search.

use crate::bytes::{hex_text, le64, push_all, push_le64, same_bytes, to_hex};
use crate::error::{cache_error, is_cache_error, is_invalid, TraceError};
use crate::memory_search::cached::CachedOccurrences;
use crate::memory_search::identity::{digest, sha256};
use crate::memory_search::request::{options_fault, validate_options, MemorySearchOptions};
use vstd::prelude::*;

verus! {

/// The identity of an open file. A difference in any field means that the
/// content may have changed.
#[derive(Debug, Clone, Copy, PartialEq, Eq, Structural)]
pub struct FdSignature {
    pub dev: u64,
    pub ino: u64,
    pub len: u64,
    pub mtime: i64,
    pub mtime_nsec: i64,
    pub ctime: i64,
    pub ctime_nsec: i64,
}

/// Where the hash of a trace comes from.
#[derive(Debug, Clone, Copy, PartialEq, Eq, Structural)]
pub enum FingerprintSource {
    /// The whole trace was hashed.
    Computed,
    /// A kept hash was reused.
    Reused,
}

/// Length of a kept fingerprint.
pub const FINGERPRINT_LEN: usize = 40;

/// `TMSFPR01`
pub open spec fn fingerprint_magic() -> Seq<u8> {
    seq![84u8, 77u8, 83u8, 70u8, 80u8, 82u8, 48u8, 49u8]
}

fn push_fingerprint_magic(out: &mut Vec<u8>)
    ensures
        final(out)@ == old(out)@ + fingerprint_magic(),
{
    let magic: [u8; 8] = [84, 77, 83, 70, 80, 82, 48, 49];
    assert(magic@ =~= fingerprint_magic());
    push_all(out, magic.as_slice());
}

/// The fields of a signature as bytes.
pub open spec fn signature_bytes(s: FdSignature) -> Seq<u8> {
    le64(s.dev) + le64(s.ino) + le64(s.len) + le64(s.mtime as u64) + le64(s.mtime_nsec as u64)
        + le64(s.ctime as u64) + le64(s.ctime_nsec as u64)
}

/// Name under which the hash of a file is kept.
pub fn fingerprint_name(signature: &FdSignature) -> (name: String)
    ensures
        name@ == hex_text(digest(signature_bytes(*signature))),
{
    let mut bytes: Vec<u8> = Vec::new();
    push_le64(&mut bytes, signature.dev);
    push_le64(&mut bytes, signature.ino);
    push_le64(&mut bytes, signature.len);
    push_le64(&mut bytes, signature.mtime as u64);
    push_le64(&mut bytes, signature.mtime_nsec as u64);
    push_le64(&mut bytes, signature.ctime as u64);
    push_le64(&mut bytes, signature.ctime_nsec as u64);
    assert(bytes@ =~= signature_bytes(*signature));
    to_hex(sha256(bytes.as_slice()).as_slice())
}

/// A hash as it is kept.
pub open spec fn fingerprint_file(trace_hash: Seq<u8>) -> Seq<u8> {
    fingerprint_magic() + trace_hash
}

/// Writes a hash down.
pub fn encode_fingerprint(trace_hash: &[u8; 32]) -> (bytes: Vec<u8>)
    ensures
        bytes@ == fingerprint_file(trace_hash@),
{
    let mut bytes: Vec<u8> = Vec::new();
    push_fingerprint_magic(&mut bytes);
    push_all(&mut bytes, trace_hash.as_slice());
    bytes
}

/// Reads a kept hash. Only a complete file that bears the mark is accepted.
pub fn decode_fingerprint(bytes: &[u8]) -> (r: Option<[u8; 32]>)
    ensures
        match r {
            Some(hash) => bytes@ == fingerprint_file(hash@),
            None => forall|hash: [u8; 32]| bytes@ != #[trigger] fingerprint_file(hash@),
        },
{
    if bytes.len() != FINGERPRINT_LEN {
        return None;
    }
    let mut magic: Vec<u8> = Vec::new();
    push_fingerprint_magic(&mut magic);
    let head = vstd::slice::slice_subrange(bytes, 0, 8);
    if !same_bytes(head, magic.as_slice()) {
        proof {
            assert forall|hash: [u8; 32]| bytes@ != #[trigger] fingerprint_file(hash@) by {
                assert(fingerprint_file(hash@).subrange(0, 8) =~= fingerprint_magic());
                assert(magic@ =~= fingerprint_magic());
            }
        }
        return None;
    }
    let mut hash: [u8; 32] = [0u8; 32];
    let mut i: usize = 0;
    while i < 32
        invariant
            i <= 32,
            bytes@.len() == FINGERPRINT_LEN,
            forall|k: int| #![trigger hash@[k]] 0 <= k < i ==> hash@[k] == bytes@[8 + k],
        decreases 32 - i,
    {
        hash[i] = bytes[8 + i];
        i += 1;
    }
    proof {
        assert(magic@ =~= fingerprint_magic());
        assert(bytes@ =~= bytes@.subrange(0, 8) + bytes@.subrange(8, 40));
        assert(bytes@.subrange(8, 40) =~= hash@);
    }
    Some(hash)
}

/// What is kept is read back.
pub proof fn law_fingerprint_reads_back(a: [u8; 32], b: [u8; 32])
    ensures
        fingerprint_file(a@) == fingerprint_file(b@) <==> a@ == b@,
{
    if fingerprint_file(a@) == fingerprint_file(b@) {
        assert(fingerprint_file(a@).skip(8) =~= a@);
        assert(fingerprint_file(b@).skip(8) =~= b@);
    }
}

// ---------------------------------------------------------------------------
// The steps of a search
// ---------------------------------------------------------------------------

pub open spec fn changed_before_text() -> Seq<char> {
    "trace fd changed between mmap and the start of the search"@
}

/// First step: the request makes sense, and the file is the one that was
/// mapped.
pub fn begin_fd_search(
    options: &MemorySearchOptions,
    baseline: &FdSignature,
    observed: &FdSignature,
) -> (r: Result<(), TraceError>)
    ensures
        match options_fault(*options) {
            Some(text) => r matches Err(e) && is_invalid(e, text),
            None => if *observed == *baseline {
                r is Ok
            } else {
                r matches Err(e) && is_cache_error(e, changed_before_text())
            },
        },
{
    match validate_options(options) {
        Ok(_) => {},
        Err(e) => {
            return Err(e);
        },
    }
    if *observed != *baseline {
        return Err(cache_error("trace fd changed between mmap and the start of the search"));
    }
    Ok(())
}

/// The hash of a trace and where it comes from.
pub struct EstablishedHash {
    pub hash: [u8; 32],
    pub source: FingerprintSource,
}

/// Second step: a kept hash is reused, otherwise the trace is hashed.
pub fn establish_trace_hash(data: &[u8], stored: Option<&[u8]>) -> (r: EstablishedHash)
    ensures
        match r.source {
            FingerprintSource::Reused => stored matches Some(bytes) && bytes@
                == fingerprint_file(r.hash@),
            FingerprintSource::Computed => r.hash@ == digest(data@) && (stored matches Some(bytes)
                ==> forall|hash: [u8; 32]| bytes@ != #[trigger] fingerprint_file(hash@)),
        },
{
    if let Some(bytes) = stored {
        if let Some(hash) = decode_fingerprint(bytes) {
            return EstablishedHash { hash, source: FingerprintSource::Reused };
        }
    }
    EstablishedHash { hash: sha256(data), source: FingerprintSource::Computed }
}

pub open spec fn changed_meanwhile_text(source: FingerprintSource) -> Seq<char> {
    match source {
        FingerprintSource::Reused => "trace fd changed while loading its fingerprint"@,
        FingerprintSource::Computed => "trace fd changed while computing its content hash"@,
    }
}

/// Third step: the file did not change meanwhile. A hash that was computed is
/// handed out to be kept.
pub fn confirm_trace_hash(
    baseline: &FdSignature,
    observed: &FdSignature,
    established: &EstablishedHash,
) -> (r: Result<Option<Vec<u8>>, TraceError>)
    ensures
        if *observed != *baseline {
            r matches Err(e) && is_cache_error(e, changed_meanwhile_text(established.source))
        } else {
            match established.source {
                FingerprintSource::Reused => r matches Ok(None),
                FingerprintSource::Computed => r matches Ok(Some(bytes)) && bytes@
                    == fingerprint_file(established.hash@),
            }
        },
{
    match established.source {
        FingerprintSource::Reused => {
            if *observed != *baseline {
                return Err(cache_error("trace fd changed while loading its fingerprint"));
            }
            Ok(None)
        },
        FingerprintSource::Computed => {
            if *observed != *baseline {
                return Err(cache_error("trace fd changed while computing its content hash"));
            }
            Ok(Some(encode_fingerprint(&established.hash)))
        },
    }
}

pub open spec fn changed_during_text() -> Seq<char> {
    "trace fd changed while the memory search was running"@
}

/// Last step: what was found counts only if the file is still the same.
pub fn finish_fd_search(
    baseline: &FdSignature,
    observed: &FdSignature,
    found: Result<CachedOccurrences, TraceError>,
) -> (r: Result<CachedOccurrences, TraceError>)
    ensures
        if found is Err || *observed == *baseline {
            r == found
        } else {
            r matches Err(e) && is_cache_error(e, changed_during_text())
        },
{
    match found {
        Ok(result) => {
            if *observed != *baseline {
                Err(cache_error("trace fd changed while the memory search was running"))
            } else {
                Ok(result)
            }
        },
        Err(e) => Err(e),
    }
}

} // verus!
