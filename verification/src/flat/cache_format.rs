//! The section format.
//!
//! A file is a table followed by sections of bytes. The table holds the number
//! of sections and, for each, where it starts and how long it is. Sections
//! start at multiples of 8.

use crate::bytes::{
    from_le32, from_le64, law_le32_read_back, law_le64_read_back, le32, le64, push_all, push_le32,
    push_le64, read_le32, read_le64,
};
use vstd::prelude::*;

verus! {

// ---------------------------------------------------------------------------
// Layout
// ---------------------------------------------------------------------------

/// The next multiple of 8.
pub open spec fn align8(n: int) -> int {
    (n + 7) / 8 * 8
}

/// Bytes with zeros up to the next multiple of 8.
pub open spec fn padded(s: Seq<u8>) -> Seq<u8> {
    s + Seq::new((align8(s.len() as int) - s.len()) as nat, |i: int| 0u8)
}

/// The first `n` sections, each at a multiple of 8.
pub open spec fn body(contents: Seq<Seq<u8>>, n: int) -> Seq<u8>
    decreases n,
{
    if n <= 0 {
        Seq::empty()
    } else {
        padded(body(contents, n - 1)) + contents[n - 1]
    }
}

/// Where section `i` starts, counted from the end of the table.
pub open spec fn start_of(contents: Seq<Seq<u8>>, i: int) -> int {
    align8(body(contents, i).len() as int)
}

/// Length of the table of `n` sections.
pub open spec fn table_len(n: int) -> int {
    align8(4 + 16 * n)
}

/// The entries of the first `n` sections.
pub open spec fn entries(contents: Seq<Seq<u8>>, n: int) -> Seq<u8>
    decreases n,
{
    if n <= 0 {
        Seq::empty()
    } else {
        entries(contents, n - 1) + le64(
            (start_of(contents, n - 1) + table_len(contents.len() as int)) as u64,
        ) + le64(contents[n - 1].len() as u64)
    }
}

/// The whole file.
pub open spec fn packed(contents: Seq<Seq<u8>>) -> Seq<u8> {
    let n = contents.len() as int;
    padded(le32(n as u32) + entries(contents, n)) + body(contents, n)
}

/// Length of the whole file.
pub open spec fn packed_len(contents: Seq<Seq<u8>>) -> int {
    table_len(contents.len() as int) + body(contents, contents.len() as int).len()
}

proof fn lemma_padded(s: Seq<u8>)
    ensures
        padded(s).len() == align8(s.len() as int),
        s.len() <= padded(s).len() < s.len() + 8,
        padded(s).len() % 8 == 0,
        padded(s).take(s.len() as int) == s,
{
    assert(padded(s).take(s.len() as int) =~= s);
}

proof fn lemma_entries_len(contents: Seq<Seq<u8>>, n: int)
    requires
        0 <= n,
    ensures
        entries(contents, n).len() == 16 * n,
    decreases n,
{
    if n > 0 {
        lemma_entries_len(contents, n - 1);
        law_le64_read_back((start_of(contents, n - 1) + table_len(contents.len() as int)) as u64);
        law_le64_read_back(contents[n - 1].len() as u64);
    }
}

proof fn lemma_body_grows(contents: Seq<Seq<u8>>, i: int, n: int)
    requires
        0 <= i <= n,
    ensures
        body(contents, i).len() <= body(contents, n).len(),
        body(contents, n).take(body(contents, i).len() as int) == body(contents, i),
    decreases n - i,
{
    if i < n {
        lemma_body_grows(contents, i, n - 1);
        let before = body(contents, n - 1);
        lemma_padded(before);
        assert(body(contents, n).take(before.len() as int) =~= before);
        assert(body(contents, n).take(body(contents, i).len() as int) =~= before.take(
            body(contents, i).len() as int,
        ));
    } else {
        assert(body(contents, n).take(body(contents, n).len() as int) =~= body(contents, n));
    }
}

/// A section stands where it starts.
proof fn lemma_section_stands(contents: Seq<Seq<u8>>, i: int, n: int)
    requires
        0 <= i < n,
    ensures
        start_of(contents, i) % 8 == 0,
        start_of(contents, i) + contents[i].len() <= body(contents, n).len(),
        body(contents, n).subrange(
            start_of(contents, i),
            start_of(contents, i) + contents[i].len(),
        ) == contents[i],
{
    lemma_body_grows(contents, i + 1, n);
    lemma_padded(body(contents, i));
    let s = start_of(contents, i);
    let own = body(contents, i + 1);
    assert(own.len() == s + contents[i].len());
    assert(own.subrange(s, s + contents[i].len()) =~= contents[i]);
    assert(body(contents, n).subrange(s, s + contents[i].len()) =~= body(contents, n).take(
        own.len() as int,
    ).subrange(s, s + contents[i].len()));
}

/// Numbers as bytes.
pub open spec fn bytes32(s: Seq<u32>) -> Seq<u8>
    decreases s.len(),
{
    if s.len() == 0 {
        Seq::empty()
    } else {
        bytes32(s.drop_last()) + le32(s.last())
    }
}

/// Numbers as bytes.
pub open spec fn bytes64(s: Seq<u64>) -> Seq<u8>
    decreases s.len(),
{
    if s.len() == 0 {
        Seq::empty()
    } else {
        bytes64(s.drop_last()) + le64(s.last())
    }
}

// ---------------------------------------------------------------------------
// Writing
// ---------------------------------------------------------------------------

/// Collects sections.
pub struct SectionWriter {
    /// Start and length of each section.
    pub sections: Vec<(usize, usize)>,
    pub buf: Vec<u8>,
}

impl View for SectionWriter {
    type V = Seq<Seq<u8>>;

    closed spec fn view(&self) -> Seq<Seq<u8>> {
        Seq::new(
            self.sections@.len(),
            |i: int|
                self.buf@.subrange(
                    self.sections@[i].0 as int,
                    self.sections@[i].0 + self.sections@[i].1,
                ),
        )
    }
}

impl Default for SectionWriter {
    fn default() -> (w: Self)
        ensures
            w.wf(),
            w@ == Seq::<Seq<u8>>::empty(),
    {
        Self::new()
    }
}

impl SectionWriter {
    /// The buffer holds the sections and nothing else.
    pub closed spec fn wf(&self) -> bool {
        &&& self.buf@ == body(self@, self@.len() as int)
        &&& forall|i: int|
            #![trigger self.sections@[i]]
            0 <= i < self.sections@.len() ==> {
                &&& self.sections@[i].0 == start_of(self@, i)
                &&& self.sections@[i].0 + self.sections@[i].1 <= self.buf@.len()
            }
    }

    pub fn new() -> (w: Self)
        ensures
            w.wf(),
            w@ == Seq::<Seq<u8>>::empty(),
    {
        let w = SectionWriter { sections: Vec::new(), buf: Vec::new() };
        assert(w@ =~= Seq::<Seq<u8>>::empty());
        w
    }

    /// Pads the buffer; returns where the next section starts.
    fn align(&mut self) -> (at: usize)
        ensures
            final(self).buf@ == padded(old(self).buf@),
            final(self).sections@ == old(self).sections@,
            at == final(self).buf@.len(),
    {
        let ghost start = self.buf@;
        proof {
            lemma_padded(start);
        }
        while self.buf.len() % 8 != 0
            invariant
                start.len() <= self.buf@.len() <= padded(start).len(),
                padded(start).len() % 8 == 0,
                padded(start).len() < start.len() + 8,
                self.buf@ =~= padded(start).take(self.buf@.len() as int),
                self.sections@ == old(self).sections@,
            decreases padded(start).len() - self.buf@.len(),
        {
            self.buf.push(0);
        }
        assert(self.buf@.len() == padded(start).len());
        assert(padded(start).take(padded(start).len() as int) =~= padded(start));
        self.buf.len()
    }

    /// Closes the section that was begun at `at`.
    fn close(&mut self, at: usize, Ghost(before): Ghost<Self>, Ghost(content): Ghost<Seq<u8>>) -> (idx:
        usize)
        requires
            before.wf(),
            old(self).sections@ == before.sections@,
            old(self).buf@ == padded(before.buf@) + content,
            at == padded(before.buf@).len(),
        ensures
            final(self).wf(),
            final(self)@ == before@.push(content),
            idx == before@.len(),
    {
        let len: usize = self.buf.len() - at;
        self.sections.push((at, len));
        proof {
            let n = before@.len() as int;
            lemma_padded(before.buf@);
            assert(before.buf@ == padded(before.buf@).take(before.buf@.len() as int));
            assert(self@ =~= before@.push(content)) by {
                assert forall|i: int| 0 <= i < n implies self@[i] == #[trigger] before@[i] by {
                    assert(self.sections@[i] == before.sections@[i]);
                    let a = before.sections@[i].0 as int;
                    let b = before.sections@[i].0 + before.sections@[i].1;
                    assert(self.buf@.subrange(a, b) =~= before.buf@.subrange(a, b));
                }
                assert(self@[n] =~= content);
            }
            let after = self@;
            lemma_body_same(before@, after, n);
            assert forall|i: int| #![trigger self.sections@[i]] 0 <= i < self.sections@.len() implies {
                &&& self.sections@[i].0 == start_of(after, i)
                &&& self.sections@[i].0 + self.sections@[i].1 <= self.buf@.len()
            } by {
                if i < n {
                    assert(self.sections@[i] == before.sections@[i]);
                    lemma_body_same(before@, after, i);
                }
            }
        }
        self.sections.len() - 1
    }

    /// Adds a section of numbers; returns its position.
    fn write_slice32(&mut self, data: &[u32]) -> (idx: usize)
        requires
            old(self).wf(),
        ensures
            final(self).wf(),
            final(self)@ == old(self)@.push(bytes32(data@)),
            idx == old(self)@.len(),
    {
        let ghost before = *self;
        let at: usize = self.align();
        let ghost start = self.buf@;
        let mut i: usize = 0;
        assert(data@.take(0) =~= Seq::empty());
        assert(start + bytes32(data@.take(0)) =~= start);
        while i < data.len()
            invariant
                i <= data@.len(),
                self.sections@ == before.sections@,
                self.buf@ == start + bytes32(data@.take(i as int)),
            decreases data@.len() - i,
        {
            push_le32(&mut self.buf, data[i]);
            assert(data@.take(i + 1).drop_last() =~= data@.take(i as int));
            assert(self.buf@ =~= start + bytes32(data@.take(i + 1)));
            i += 1;
        }
        assert(data@.take(data@.len() as int) =~= data@);
        self.close(at, Ghost(before), Ghost(bytes32(data@)))
    }

    /// Adds a section of numbers; returns its position.
    fn write_slice64(&mut self, data: &[u64]) -> (idx: usize)
        requires
            old(self).wf(),
        ensures
            final(self).wf(),
            final(self)@ == old(self)@.push(bytes64(data@)),
            idx == old(self)@.len(),
    {
        let ghost before = *self;
        let at: usize = self.align();
        let ghost start = self.buf@;
        let mut i: usize = 0;
        assert(data@.take(0) =~= Seq::empty());
        assert(start + bytes64(data@.take(0)) =~= start);
        while i < data.len()
            invariant
                i <= data@.len(),
                self.sections@ == before.sections@,
                self.buf@ == start + bytes64(data@.take(i as int)),
            decreases data@.len() - i,
        {
            push_le64(&mut self.buf, data[i]);
            assert(data@.take(i + 1).drop_last() =~= data@.take(i as int));
            assert(self.buf@ =~= start + bytes64(data@.take(i + 1)));
            i += 1;
        }
        assert(data@.take(data@.len() as int) =~= data@);
        self.close(at, Ghost(before), Ghost(bytes64(data@)))
    }

    /// Adds a section of one number; returns its position.
    pub fn write_u32(&mut self, val: u32) -> (idx: usize)
        requires
            old(self).wf(),
        ensures
            final(self).wf(),
            final(self)@ == old(self)@.push(le32(val)),
            idx == old(self)@.len(),
    {
        let ghost before = *self;
        let at: usize = self.align();
        push_le32(&mut self.buf, val);
        self.close(at, Ghost(before), Ghost(le32(val)))
    }

    /// Adds a section of one number; returns its position.
    pub fn write_u64(&mut self, val: u64) -> (idx: usize)
        requires
            old(self).wf(),
        ensures
            final(self).wf(),
            final(self)@ == old(self)@.push(le64(val)),
            idx == old(self)@.len(),
    {
        let ghost before = *self;
        let at: usize = self.align();
        push_le64(&mut self.buf, val);
        self.close(at, Ghost(before), Ghost(le64(val)))
    }

    /// Adds a section of bytes; returns its position.
    pub fn write_bytes(&mut self, data: &[u8]) -> (idx: usize)
        requires
            old(self).wf(),
        ensures
            final(self).wf(),
            final(self)@ == old(self)@.push(data@),
            idx == old(self)@.len(),
    {
        let ghost before = *self;
        let at: usize = self.align();
        push_all(&mut self.buf, data);
        self.close(at, Ghost(before), Ghost(data@))
    }

    /// The table, without its padding.
    fn table(&self, table: usize) -> (head: Vec<u8>)
        requires
            self.wf(),
            self@.len() <= u32::MAX,
            table == table_len(self@.len() as int),
            packed_len(self@) <= usize::MAX,
        ensures
            head@ == le32(self@.len() as u32) + entries(self@, self@.len() as int),
    {
        let ghost contents = self@;
        let n: usize = self.sections.len();
        let mut head: Vec<u8> = Vec::new();
        push_le32(&mut head, n as u32);
        assert(head@ =~= le32(n as u32) + entries(contents, 0));
        let mut i: usize = 0;
        while i < n
            invariant
                i <= n,
                n == self.sections@.len(),
                n == contents.len(),
                contents == self@,
                self.wf(),
                table == table_len(n as int),
                packed_len(contents) <= usize::MAX,
                head@ == le32(n as u32) + entries(contents, i as int),
            decreases n - i,
        {
            let (offset, length) = self.sections[i];
            let ghost before = head@;
            let ghost first = le64((start_of(contents, i as int) + table_len(n as int)) as u64);
            let ghost second = le64(contents[i as int].len() as u64);
            assert(contents[i as int].len() == length);
            assert(offset + table <= usize::MAX);
            push_le64(&mut head, (offset + table) as u64);
            push_le64(&mut head, length as u64);
            proof {
                assert(head@ == before + first + second);
                assert(entries(contents, i + 1) == entries(contents, i as int) + first + second);
                assert(head@ =~= le32(n as u32) + (entries(contents, i as int) + first + second));
            }
            i += 1;
        }
        head
    }

    /// The file.
    #[verifier::rlimit(40)]
    pub fn finish(self) -> (file: Vec<u8>)
        requires
            self.wf(),
            self@.len() <= u32::MAX,
            packed_len(self@) <= usize::MAX,
        ensures
            file@ == packed(self@),
    {
        let n: usize = self.sections.len();
        let raw: usize = 4 + n * 16;
        let table: usize = (raw + 7) / 8 * 8;
        let mut file = self.table(table);
        let ghost head = file@;
        assert(head.len() == 4 + 16 * n) by {
            lemma_entries_len(self@, n as int);
            law_le32_read_back(n as u32);
        }
        assert(head.len() <= table == padded(head).len()) by {
            lemma_padded(head);
        }
        assert(file@ =~= padded(head).take(file@.len() as int));
        while file.len() < table
            invariant
                head.len() <= file@.len() <= table,
                table == padded(head).len(),
                file@ =~= padded(head).take(file@.len() as int),
            decreases table - file@.len(),
        {
            file.push(0);
        }
        assert(padded(head).take(table as int) =~= padded(head));
        push_all(&mut file, self.buf.as_slice());
        file
    }
}

/// Sections are laid out one after another, whatever follows.
proof fn lemma_body_same(a: Seq<Seq<u8>>, b: Seq<Seq<u8>>, n: int)
    requires
        0 <= n <= a.len(),
        n <= b.len(),
        forall|i: int| #![trigger a[i]] 0 <= i < n ==> a[i] == b[i],
    ensures
        body(a, n) == body(b, n),
    decreases n,
{
    if n > 0 {
        lemma_body_same(a, b, n - 1);
        assert(a[n - 1] == b[n - 1]);
    }
}

// ---------------------------------------------------------------------------
// Reading
// ---------------------------------------------------------------------------

/// Number of sections that a file announces.
pub open spec fn section_count(data: Seq<u8>) -> int {
    from_le32(data.subrange(0, 4)) as int
}

/// Where section `i` of a file starts.
pub open spec fn section_start(data: Seq<u8>, i: int) -> int {
    from_le64(data.subrange(4 + 16 * i, 12 + 16 * i)) as int
}

/// Length of section `i` of a file.
pub open spec fn section_length(data: Seq<u8>, i: int) -> int {
    from_le64(data.subrange(12 + 16 * i, 20 + 16 * i)) as int
}

/// Section `i` lies within the file.
pub open spec fn section_fits(data: Seq<u8>, i: int) -> bool {
    section_start(data, i) + section_length(data, i) <= data.len()
}

/// The bytes of section `i`.
pub open spec fn section_bytes(data: Seq<u8>, i: int) -> Seq<u8> {
    data.subrange(section_start(data, i), section_start(data, i) + section_length(data, i))
}

/// The table is complete, and every section lies within the file.
pub open spec fn readable(data: Seq<u8>) -> bool {
    &&& data.len() >= 4
    &&& 4 + 16 * section_count(data) <= data.len()
    &&& forall|i: int| 0 <= i < section_count(data) ==> #[trigger] section_fits(data, i)
}

/// A section of elements of the given size and alignment; it may be empty.
pub open spec fn has_elements(data: Seq<u8>, idx: int, size: int, align: int) -> bool {
    &&& idx < section_count(data)
    &&& section_length(data, idx) == 0 || (section_start(data, idx) % align == 0
        && section_length(data, idx) % size == 0)
}

/// A section of exactly one element.
pub open spec fn has_single(data: Seq<u8>, idx: int, size: int) -> bool {
    has_elements(data, idx, size, size) && section_length(data, idx) == size
}

/// The sections of a file.
pub struct SectionReader<'a> {
    pub data: &'a [u8],
    /// Start and length of each section.
    pub sections: Vec<(u64, u64)>,
}

impl<'a> View for SectionReader<'a> {
    type V = Seq<Seq<u8>>;

    open spec fn view(&self) -> Seq<Seq<u8>> {
        Seq::new(self.sections@.len(), |i: int| section_bytes(self.data@, i))
    }
}

impl<'a> SectionReader<'a> {
    /// The reader knows the sections of its file.
    pub open spec fn wf(&self) -> bool {
        &&& readable(self.data@)
        &&& self.sections@.len() == section_count(self.data@)
        &&& forall|i: int|
            #![trigger self.sections@[i]]
            0 <= i < self.sections@.len() ==> self.sections@[i].0 == section_start(self.data@, i)
                && self.sections@[i].1 == section_length(self.data@, i)
    }

    /// Reads the table of a file. A file that is cut off or whose table points
    /// outside is refused.
    pub fn new(data: &'a [u8]) -> (r: Option<Self>)
        ensures
            match r {
                Some(reader) => readable(data@) && reader.wf() && reader.data@ == data@,
                None => !readable(data@),
            },
    {
        if data.len() < 4 {
            return None;
        }
        let n: u32 = read_le32(data, 0);
        if (data.len() as u64) < 4 + (n as u64) * 16 {
            return None;
        }
        let count: usize = n as usize;
        let mut sections: Vec<(u64, u64)> = Vec::new();
        let mut i: usize = 0;
        while i < count
            invariant
                i <= count,
                count == section_count(data@),
                4 + 16 * count <= data@.len() <= usize::MAX,
                sections@.len() == i,
                forall|k: int| 0 <= k < i ==> #[trigger] section_fits(data@, k),
                forall|k: int|
                    #![trigger sections@[k]]
                    0 <= k < i ==> sections@[k].0 == section_start(data@, k) && sections@[k].1
                        == section_length(data@, k),
            decreases count - i,
        {
            let base: usize = 4 + i * 16;
            let offset: u64 = read_le64(data, base);
            let length: u64 = read_le64(data, base + 8);
            let total: u64 = data.len() as u64;
            if length > total || offset > total - length {
                assert(!section_fits(data@, i as int));
                return None;
            }
            sections.push((offset, length));
            i += 1;
        }
        Some(SectionReader { data, sections })
    }

    /// Whether a section can be read as elements of the given size, aligned to
    /// it. An empty section can.
    pub fn is_valid_typed(&self, idx: usize, elem_size: usize) -> (b: bool)
        requires
            self.wf(),
            elem_size > 0,
        ensures
            b == has_elements(self.data@, idx as int, elem_size as int, elem_size as int),
    {
        self.is_valid_typed_align(idx, elem_size, elem_size)
    }

    /// Whether a section can be read as elements of the given size and
    /// alignment.
    pub fn is_valid_typed_align(&self, idx: usize, elem_size: usize, elem_align: usize) -> (b: bool)
        requires
            self.wf(),
            elem_size > 0,
            elem_align > 0,
        ensures
            b == has_elements(self.data@, idx as int, elem_size as int, elem_align as int),
    {
        if idx >= self.sections.len() {
            return false;
        }
        let (offset, length) = self.sections[idx];
        assert(section_fits(self.data@, idx as int));
        assert(self@[idx as int].len() == length);
        if length == 0 {
            return true;
        }
        offset % (elem_align as u64) == 0 && length % (elem_size as u64) == 0
    }

    /// Whether a section can be read as one element of the given size.
    pub fn is_valid_single(&self, idx: usize, elem_size: usize) -> (b: bool)
        requires
            self.wf(),
            elem_size > 0,
        ensures
            b == has_single(self.data@, idx as int, elem_size as int),
    {
        self.is_valid_typed_align(idx, elem_size, elem_size) && self.section_len(idx) == elem_size
    }

    /// Length of a section in bytes; 0 if there is none.
    pub fn section_len(&self, idx: usize) -> (n: usize)
        requires
            self.wf(),
        ensures
            n == (if idx < self@.len() {
                section_length(self.data@, idx as int)
            } else {
                0
            }),
    {
        if idx >= self.sections.len() {
            return 0;
        }
        assert(section_fits(self.data@, idx as int));
        assert(self.data.len() == self.data@.len());
        self.sections[idx].1 as usize
    }

    /// The bytes of a section.
    pub fn bytes(&self, idx: usize) -> (b: &'a [u8])
        requires
            self.wf(),
            idx < self@.len(),
        ensures
            b@ == self@[idx as int],
            b@.len() == section_length(self.data@, idx as int),
    {
        let (offset, length) = self.sections[idx];
        assert(section_fits(self.data@, idx as int));
        assert(self.data.len() == self.data@.len());
        vstd::slice::slice_subrange(self.data, offset as usize, (offset + length) as usize)
    }

    /// The number that a section holds.
    pub fn u32_val(&self, idx: usize) -> (v: u32)
        requires
            self.wf(),
            has_single(self.data@, idx as int, 4),
        ensures
            v == from_le32(self@[idx as int]),
    {
        let b = self.bytes(idx);
        assert(b@.subrange(0, 4) =~= b@);
        read_le32(b, 0)
    }

    /// The number that a section holds.
    pub fn u64_val(&self, idx: usize) -> (v: u64)
        requires
            self.wf(),
            has_single(self.data@, idx as int, 8),
        ensures
            v == from_le64(self@[idx as int]),
    {
        let b = self.bytes(idx);
        assert(b@.subrange(0, 8) =~= b@);
        read_le64(b, 0)
    }

    /// The numbers that a section holds.
    fn slice32(&self, idx: usize) -> (v: Vec<u32>)
        requires
            self.wf(),
            has_elements(self.data@, idx as int, 4, 4),
        ensures
            bytes32(v@) == self@[idx as int],
    {
        let b = self.bytes(idx);
        let n: usize = b.len() / 4;
        let mut v: Vec<u32> = Vec::new();
        let mut i: usize = 0;
        while i < n
            invariant
                i <= n,
                b@.len() == 4 * n,
                b@.len() <= usize::MAX,
                bytes32(v@) =~= b@.take(4 * i),
            decreases n - i,
        {
            let x: u32 = read_le32(b, 4 * i);
            let ghost before = v@;
            v.push(x);
            proof {
                crate::bytes::lemma_from_le32(b@.subrange(4 * i, 4 * i + 4));
                assert(v@.drop_last() =~= before);
                assert(b@.take(4 * (i + 1)) =~= b@.take(4 * i) + b@.subrange(4 * i, 4 * i + 4));
            }
            i += 1;
        }
        assert(b@.take(4 * n) =~= b@);
        v
    }

    /// The numbers that a section holds.
    fn slice64(&self, idx: usize) -> (v: Vec<u64>)
        requires
            self.wf(),
            has_elements(self.data@, idx as int, 8, 8),
        ensures
            bytes64(v@) == self@[idx as int],
    {
        let b = self.bytes(idx);
        let n: usize = b.len() / 8;
        let mut v: Vec<u64> = Vec::new();
        let mut i: usize = 0;
        while i < n
            invariant
                i <= n,
                b@.len() == 8 * n,
                b@.len() <= usize::MAX,
                bytes64(v@) =~= b@.take(8 * i),
            decreases n - i,
        {
            let x: u64 = read_le64(b, 8 * i);
            let ghost before = v@;
            v.push(x);
            proof {
                crate::bytes::lemma_from_le64(b@.subrange(8 * i, 8 * i + 8));
                assert(v@.drop_last() =~= before);
                assert(b@.take(8 * (i + 1)) =~= b@.take(8 * i) + b@.subrange(8 * i, 8 * i + 8));
            }
            i += 1;
        }
        assert(b@.take(8 * n) =~= b@);
        v
    }

    /// Number of sections.
    pub fn num_sections(&self) -> (n: usize)
        requires
            self.wf(),
        ensures
            n == self@.len(),
    {
        self.sections.len()
    }
}

// ---------------------------------------------------------------------------
// Sections of numbers
// ---------------------------------------------------------------------------

/// A number that a section can hold many of, one after the other.
pub trait SectionElement: Copy {
    /// Bytes per number.
    spec fn width() -> int;

    /// Numbers as bytes.
    spec fn encoded(s: Seq<Self>) -> Seq<u8>;

    /// Adds a section of numbers; returns its position.
    fn write_to(w: &mut SectionWriter, data: &[Self]) -> (idx: usize)
        requires
            old(w).wf(),
        ensures
            final(w).wf(),
            final(w)@ == old(w)@.push(Self::encoded(data@)),
            idx == old(w)@.len(),
    ;

    /// The numbers that a section holds.
    fn read_from(r: &SectionReader<'_>, idx: usize) -> (v: Vec<Self>)
        requires
            r.wf(),
            has_elements(r.data@, idx as int, Self::width(), Self::width()),
        ensures
            Self::encoded(v@) == r@[idx as int],
    ;
}

impl SectionElement for u32 {
    open spec fn width() -> int {
        4
    }

    open spec fn encoded(s: Seq<Self>) -> Seq<u8> {
        bytes32(s)
    }

    fn write_to(w: &mut SectionWriter, data: &[Self]) -> (idx: usize) {
        w.write_slice32(data)
    }

    fn read_from(r: &SectionReader<'_>, idx: usize) -> (v: Vec<Self>) {
        r.slice32(idx)
    }
}

impl SectionElement for u64 {
    open spec fn width() -> int {
        8
    }

    open spec fn encoded(s: Seq<Self>) -> Seq<u8> {
        bytes64(s)
    }

    fn write_to(w: &mut SectionWriter, data: &[Self]) -> (idx: usize) {
        w.write_slice64(data)
    }

    fn read_from(r: &SectionReader<'_>, idx: usize) -> (v: Vec<Self>) {
        r.slice64(idx)
    }
}

impl SectionWriter {
    /// Adds a section of numbers; returns its position.
    pub fn write_slice<T: SectionElement>(&mut self, data: &[T]) -> (idx: usize)
        requires
            old(self).wf(),
        ensures
            final(self).wf(),
            final(self)@ == old(self)@.push(T::encoded(data@)),
            idx == old(self)@.len(),
    {
        T::write_to(self, data)
    }
}

impl<'a> SectionReader<'a> {
    /// The numbers that a section holds.
    pub fn slice<T: SectionElement>(&self, idx: usize) -> (v: Vec<T>)
        requires
            self.wf(),
            has_elements(self.data@, idx as int, T::width(), T::width()),
        ensures
            T::encoded(v@) == self@[idx as int],
    {
        T::read_from(self, idx)
    }
}

// ---------------------------------------------------------------------------
// Laws
// ---------------------------------------------------------------------------

proof fn lemma_entry(contents: Seq<Seq<u8>>, i: int, n: int)
    requires
        0 <= i < n,
    ensures
        entries(contents, n).len() == 16 * n,
        entries(contents, n).subrange(16 * i, 16 * i + 8) == le64(
            (start_of(contents, i) + table_len(contents.len() as int)) as u64,
        ),
        entries(contents, n).subrange(16 * i + 8, 16 * i + 16) == le64(contents[i].len() as u64),
    decreases n,
{
    lemma_entries_len(contents, n - 1);
    lemma_entries_len(contents, n);
    let a = le64((start_of(contents, n - 1) + table_len(contents.len() as int)) as u64);
    let b = le64(contents[n - 1].len() as u64);
    law_le64_read_back((start_of(contents, n - 1) + table_len(contents.len() as int)) as u64);
    law_le64_read_back(contents[n - 1].len() as u64);
    let all = entries(contents, n);
    let before = entries(contents, n - 1);
    assert(all =~= before + a + b);
    if i == n - 1 {
        assert(all.subrange(16 * i, 16 * i + 8) =~= a);
        assert(all.subrange(16 * i + 8, 16 * i + 16) =~= b);
    } else {
        lemma_entry(contents, i, n - 1);
        assert(all.subrange(16 * i, 16 * i + 8) =~= before.subrange(16 * i, 16 * i + 8));
        assert(all.subrange(16 * i + 8, 16 * i + 16) =~= before.subrange(
            16 * i + 8,
            16 * i + 16,
        ));
    }
}

#[verifier::rlimit(60)]
proof fn lemma_packed_section(contents: Seq<Seq<u8>>, i: int)
    requires
        contents.len() <= u32::MAX,
        packed_len(contents) <= u64::MAX,
        0 <= i < contents.len(),
    ensures
        section_start(packed(contents), i) == start_of(contents, i) + table_len(
            contents.len() as int,
        ),
        section_length(packed(contents), i) == contents[i].len(),
        section_fits(packed(contents), i),
        section_bytes(packed(contents), i) == contents[i],
        section_start(packed(contents), i) % 8 == 0,
{
    let n = contents.len() as int;
    let file = packed(contents);
    let head = le32(n as u32) + entries(contents, n);
    law_le32_read_back(n as u32);
    lemma_entry(contents, i, n);
    lemma_padded(head);
    lemma_section_stands(contents, i, n);
    let start = start_of(contents, i) + table_len(n);
    law_le64_read_back(start as u64);
    law_le64_read_back(contents[i].len() as u64);
    assert(file.subrange(4 + 16 * i, 12 + 16 * i) =~= entries(contents, n).subrange(
        16 * i,
        16 * i + 8,
    ));
    assert(file.subrange(12 + 16 * i, 20 + 16 * i) =~= entries(contents, n).subrange(
        16 * i + 8,
        16 * i + 16,
    ));
    assert(file.subrange(start, start + contents[i].len()) =~= body(contents, n).subrange(
        start_of(contents, i),
        start_of(contents, i) + contents[i].len(),
    ));
}

/// What was written is read back: the file that a writer makes has the written
/// sections, in order, each at a multiple of 8.
pub proof fn law_sections_read_back(contents: Seq<Seq<u8>>)
    requires
        contents.len() <= u32::MAX,
        packed_len(contents) <= u64::MAX,
    ensures
        readable(packed(contents)),
        section_count(packed(contents)) == contents.len(),
        forall|i: int|
            #![trigger section_bytes(packed(contents), i)]
            0 <= i < contents.len() ==> section_bytes(packed(contents), i) == contents[i]
                && section_start(packed(contents), i) % 8 == 0,
{
    let n = contents.len() as int;
    let file = packed(contents);
    let head = le32(n as u32) + entries(contents, n);
    law_le32_read_back(n as u32);
    lemma_entries_len(contents, n);
    lemma_padded(head);
    assert(file.subrange(0, 4) =~= le32(n as u32));
    assert forall|i: int| 0 <= i < n implies #[trigger] section_fits(file, i) by {
        lemma_packed_section(contents, i);
    }
    assert forall|i: int|
        #![trigger section_bytes(file, i)]
        0 <= i < n implies section_bytes(file, i) == contents[i] && section_start(file, i) % 8
        == 0 by {
        lemma_packed_section(contents, i);
    }
}

/// Numbers that have the same bytes are the same.
pub proof fn law_bytes32_read_back(a: Seq<u32>, b: Seq<u32>)
    requires
        bytes32(a) == bytes32(b),
    ensures
        a == b,
    decreases a.len(),
{
    lemma_bytes32_len(a);
    lemma_bytes32_len(b);
    if a.len() > 0 {
        let n = bytes32(a).len() as int;
        lemma_bytes32_len(a.drop_last());
        lemma_bytes32_len(b.drop_last());
        law_le32_read_back(a.last());
        law_le32_read_back(b.last());
        assert(bytes32(a).take(n - 4) =~= bytes32(a.drop_last()));
        assert(bytes32(b).take(n - 4) =~= bytes32(b.drop_last()));
        assert(bytes32(a).skip(n - 4) =~= le32(a.last()));
        assert(bytes32(b).skip(n - 4) =~= le32(b.last()));
        law_bytes32_read_back(a.drop_last(), b.drop_last());
        assert(a =~= a.drop_last().push(a.last()));
        assert(b =~= b.drop_last().push(b.last()));
    } else {
        assert(a =~= b);
    }
}

/// Numbers that have the same bytes are the same.
pub proof fn law_bytes64_read_back(a: Seq<u64>, b: Seq<u64>)
    requires
        bytes64(a) == bytes64(b),
    ensures
        a == b,
    decreases a.len(),
{
    lemma_bytes64_len(a);
    lemma_bytes64_len(b);
    if a.len() > 0 {
        let n = bytes64(a).len() as int;
        lemma_bytes64_len(a.drop_last());
        lemma_bytes64_len(b.drop_last());
        law_le64_read_back(a.last());
        law_le64_read_back(b.last());
        assert(bytes64(a).take(n - 8) =~= bytes64(a.drop_last()));
        assert(bytes64(b).take(n - 8) =~= bytes64(b.drop_last()));
        assert(bytes64(a).skip(n - 8) =~= le64(a.last()));
        assert(bytes64(b).skip(n - 8) =~= le64(b.last()));
        law_bytes64_read_back(a.drop_last(), b.drop_last());
        assert(a =~= a.drop_last().push(a.last()));
        assert(b =~= b.drop_last().push(b.last()));
    } else {
        assert(a =~= b);
    }
}

pub proof fn lemma_bytes32_len(s: Seq<u32>)
    ensures
        bytes32(s).len() == 4 * s.len(),
    decreases s.len(),
{
    if s.len() > 0 {
        lemma_bytes32_len(s.drop_last());
        law_le32_read_back(s.last());
    }
}

pub proof fn lemma_bytes64_len(s: Seq<u64>)
    ensures
        bytes64(s).len() == 8 * s.len(),
    decreases s.len(),
{
    if s.len() > 0 {
        lemma_bytes64_len(s.drop_last());
        law_le64_read_back(s.last());
    }
}

} // verus!
