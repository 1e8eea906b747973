//! Open traces and what has been learned of them.

use crate::error::{is_unknown_session, TraceError};
use crate::merge::events::CallAnnotation;
use crate::query::activation::ActivationTree;
use crate::query::call_tree::CallTree;
use crate::query::mem_access::MemAccessIndex;
use crate::query::registers::RegCheckpoints;
use crate::query::strings::StringIndex;
use crate::scanner::scan::ScanState;
use crate::types::{Insn, RegId, TraceFormat};
use std::collections::HashMap;
use vstd::prelude::*;

verus! {

/// The registers that an instruction writes and reads, judged by its mnemonic
/// alone.
pub struct RegEffects {
    pub defs: Vec<RegId>,
    pub uses: Vec<RegId>,
}

/// What the parser made of a line.
pub struct LineFact {
    /// The line as it stands in the trace.
    pub text: Vec<u8>,
    /// Offset of the instruction in its module, 0 if the line shows none.
    pub insn_offset: u64,
    /// The instruction, if the line holds one.
    pub insn: Option<Insn>,
    /// Its effects by mnemonic, if the line holds one.
    pub effects: Option<RegEffects>,
    /// The instruction as text, empty if there is none.
    pub disasm: String,
    /// Its address as the line shows it.
    pub address: Option<String>,
    /// Registers that it reads, for lines in the unidbg form.
    pub read_regs: Vec<RegId>,
    /// The line reports the result of a call.
    pub reports_return: bool,
    /// Register values that the line shows, in order.
    pub reg_values: Vec<(RegId, u64)>,
}

/// Where the last taint analysis started.
pub struct SliceOrigin {
    pub from_specs: Vec<String>,
    pub data_only: bool,
}

/// An open trace. What has not been built yet is `None`.
pub struct TraceSession {
    pub id: String,
    pub format: TraceFormat,
    pub total_lines: u32,
    /// One entry per line.
    pub lines: Option<Vec<LineFact>>,
    pub call_tree: Option<CallTree>,
    pub activation_tree: Option<ActivationTree>,
    pub string_index: Option<StringIndex>,
    pub mem_accesses: Option<MemAccessIndex>,
    pub reg_checkpoints: Option<RegCheckpoints>,
    pub scan_state: Option<ScanState>,
    /// Annotations by the line of the call.
    pub call_annotations: HashMap<u32, CallAnnotation>,
    pub slice_origin: Option<SliceOrigin>,
    /// A string scan is running.
    pub scanning_strings: bool,
    /// The running string scan is to stop.
    pub scan_strings_cancel: bool,
}

/// All open traces.
pub struct TraceEngine {
    pub sessions: Vec<TraceSession>,
}

/// The first session of that name from `k` on.
pub open spec fn session_from(s: Seq<TraceSession>, id: Seq<char>, k: int) -> Option<int>
    decreases s.len() - k,
{
    if k < 0 || k >= s.len() {
        None
    } else if s[k].id@ == id {
        Some(k)
    } else {
        session_from(s, id, k + 1)
    }
}

impl TraceEngine {
    /// Place of the session of that name.
    pub open spec fn place(&self, id: Seq<char>) -> Option<int> {
        session_from(self.sessions@, id, 0)
    }

    /// The session of that name.
    pub open spec fn session(&self, id: Seq<char>) -> Option<TraceSession> {
        match self.place(id) {
            Some(i) => Some(self.sessions@[i]),
            None => None,
        }
    }

    /// Place of the session of that name.
    pub fn find_session(&self, session_id: &str) -> (r: Option<usize>)
        ensures
            match r {
                Some(i) => self.place(session_id@) == Some(i as int) && i < self.sessions@.len(),
                None => self.place(session_id@) is None,
            },
    {
        let wanted = session_id.to_owned();
        let mut k: usize = 0;
        while k < self.sessions.len()
            invariant
                k <= self.sessions@.len(),
                wanted@ == session_id@,
                self.place(session_id@) == session_from(
                    self.sessions@,
                    session_id@,
                    k as int,
                ),
            decreases self.sessions@.len() - k,
        {
            if self.sessions[k].id == wanted {
                return Some(k);
            }
            k += 1;
        }
        None
    }

    /// The session of that name.
    pub fn get_handle(&self, session_id: &str) -> (r: Result<&TraceSession, TraceError>)
        ensures
            match self.session(session_id@) {
                Some(s) => r matches Ok(found) && *found == s,
                None => r matches Err(e) && is_unknown_session(e, session_id@),
            },
    {
        match self.find_session(session_id) {
            Some(i) => Ok(&self.sessions[i]),
            None => Err(TraceError::SessionNotFound(session_id.to_owned())),
        }
    }
}

/// The fact of a line, if there is such a line.
pub open spec fn line_at(lines: Option<Vec<LineFact>>, seq: u32) -> Option<LineFact> {
    match lines {
        Some(v) => if seq < v@.len() {
            Some(v@[seq as int])
        } else {
            None
        },
        None => None,
    }
}

/// The fact of a line, if there is such a line.
pub fn get_line(lines: &Option<Vec<LineFact>>, seq: u32) -> (r: Option<&LineFact>)
    ensures
        match line_at(*lines, seq) {
            Some(fact) => r matches Some(f) && *f == fact,
            None => r is None,
        },
{
    match lines {
        Some(v) => {
            if (seq as usize) < v.len() {
                Some(&v[seq as usize])
            } else {
                None
            }
        },
        None => None,
    }
}

} // verus!
