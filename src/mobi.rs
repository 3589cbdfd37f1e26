//! The container: its section table, its header generations, and the
//! compaction that drops the source sections.

use vstd::prelude::*;
use crate::bytes::{read_u16_at, read_u32_at, write_u32_at, u32_at, put_u32, lemma_read_after_put};
use crate::section::{
    Section, is_header_range, descriptor_cleared, descriptor_of, range_holds, HEADER_MIN_LEN, NO_SOURCE, SOURCE_START_POS,
    SOURCE_COUNT_POS,
};

verus! {

/// Offset of the container magic.
pub const MAGIC_POS: usize = 0x3c;
/// Offset of the section count.
pub const COUNT_POS: usize = 0x4c;
/// Offset of the section table.
pub const TABLE_POS: usize = 0x4e;
/// Size of one section table entry: a 4-byte offset and 4 attribute bytes.
pub const ENTRY_SIZE: usize = 8;

/// Where the offset of section `i` is stored.
pub open spec fn entry_pos(i: int) -> int {
    TABLE_POS + ENTRY_SIZE * i
}

/// Whether position `p` lies in the offset field of one of the first `i` table entries.
pub open spec fn in_offset_fields(p: int, i: int) -> bool {
    exists|j: int| 0 <= j < i && entry_pos(j) <= p < #[trigger] entry_pos(j) + 4
}

/// A container held in memory, with the header generations found in it.
pub struct MobiFile {
    /// The whole buffer; only its first `length` bytes are the container.
    pub data: Vec<u8>,
    /// The container's logical length.
    pub length: usize,
    /// The number of sections in the section table.
    pub num_sections: u32,
    /// The indices of the sections that start a header generation, ascending.
    pub mobi_section_indice: Vec<u32>,
}

impl MobiFile {
    pub open spec fn n(self) -> int {
        self.num_sections as int
    }

    /// The table offset of section `i`.
    pub open spec fn offset(self, i: int) -> int {
        u32_at(self.data@, entry_pos(i)) as int
    }

    /// Where section `i` starts; for `i == n` the container's end.
    pub open spec fn start(self, i: int) -> int {
        if i < self.n() {
            self.offset(i)
        } else {
            self.length as int
        }
    }

    pub open spec fn sec_len(self, i: int) -> int {
        self.start(i + 1) - self.start(i)
    }

    /// The number of header generations.
    pub open spec fn nh(self) -> int {
        self.mobi_section_indice@.len() as int
    }

    /// The section index of header generation `k`.
    pub open spec fn header(self, k: int) -> int {
        self.mobi_section_indice@[k] as int
    }

    /// Whether header generation `k` names section `i` as source.
    pub open spec fn names(self, k: int, i: int) -> bool {
        range_holds(descriptor_of(self.data@, self.offset(self.header(k))), i)
    }

    /// Whether section `i` is to be removed: some header generation names it.
    pub open spec fn removed(self, i: int) -> bool {
        exists|k: int| 0 <= k < self.nh() && #[trigger] self.names(k, i)
    }

    /// The bytes of the removed sections before section `i`.
    pub open spec fn dropped_before(self, i: int) -> int
        decreases i,
    {
        if i <= 0 {
            0
        } else {
            self.dropped_before(i - 1) + if self.removed(i - 1) {
                self.sec_len(i - 1)
            } else {
                0
            }
        }
    }

    /// The bytes of all removed sections.
    pub open spec fn dropped(self) -> int {
        self.dropped_before(self.n())
    }

    /// Where section `i` starts once the removed sections are gone.
    pub open spec fn new_start(self, i: int) -> int {
        self.start(i) - self.dropped_before(i)
    }

    /// The section table is in the buffer, before the sections, and its
    /// offsets ascend up to the container's length.
    pub open spec fn table_ok(self) -> bool {
        &&& self.length <= self.data@.len()
        &&& 1 <= self.n()
        &&& entry_pos(self.n()) <= self.offset(0)
        &&& forall|i: int, j: int|
            0 <= i <= j < self.n() ==> #[trigger] self.offset(i) <= #[trigger] self.offset(j)
        &&& self.offset(self.n() - 1) <= self.length
    }

    /// The header generations start at section 0, ascend, and each one's
    /// section holds every header field.
    pub open spec fn headers_ok(self) -> bool {
        &&& 1 <= self.nh()
        &&& self.header(0) == 0
        &&& forall|k: int| 0 <= k < self.nh() ==> #[trigger] self.header(k) < self.n()
        &&& forall|k: int, l: int|
            0 <= k < l < self.nh() ==> #[trigger] self.header(k) < #[trigger] self.header(l)
        &&& forall|k: int| 0 <= k < self.nh() ==> self.sec_len(#[trigger] self.header(k)) >= HEADER_MIN_LEN
        &&& forall|k: int|
            0 <= k < self.nh() ==> is_header_range(
                self.data@,
                self.start(#[trigger] self.header(k)),
                self.start(self.header(k) + 1),
            )
    }

    pub open spec fn wf(self) -> bool {
        self.table_ok() && self.headers_ok()
    }

    /// Whether position `p` lies in the source descriptor of a header
    /// generation at its place after compaction.
    pub open spec fn in_new_descriptor(self, p: int) -> bool {
        exists|k: int|
            0 <= k < self.nh() && self.new_start(self.header(k)) + SOURCE_START_POS <= p
                < #[trigger] self.new_start(self.header(k)) + HEADER_MIN_LEN
    }

    /// `after` is `self` with the removed sections dropped and every header
    /// generation's source descriptor cleared.
    pub open spec fn compacts_to(self, after: MobiFile) -> bool {
        let s = self.data@;
        let t = after.data@;
        &&& t.len() == s.len()
        &&& after.num_sections == self.num_sections
        &&& after.mobi_section_indice@ == self.mobi_section_indice@
        &&& after.length == self.length - self.dropped()
        // every table offset moves down by the bytes dropped before it
        &&& forall|i: int| 0 <= i < self.n() ==> #[trigger] after.offset(i) == self.new_start(i)
        // the bytes before the sections, but for the table offsets, are kept
        &&& forall|p: int|
            0 <= p < self.offset(0) && !in_offset_fields(p, self.n()) ==> #[trigger] t[p] == s[p]
        // each kept section's bytes move down with it
        &&& forall|i: int, p: int|
            #![trigger self.dropped_before(i), t[p]]
            0 <= i < self.n() && !self.removed(i) && self.new_start(i) <= p < self.new_start(i)
                + self.sec_len(i) && !self.in_new_descriptor(p) ==> t[p] == s[p
                + self.dropped_before(i)]
        // the bytes past the container are kept
        &&& forall|p: int| self.length <= p < s.len() ==> #[trigger] t[p] == s[p]
        // a kept header generation's descriptor reads as "no source"
        &&& forall|k: int|
            0 <= k < self.nh() && !self.removed(self.header(k)) ==> {
                &&& u32_at(t, #[trigger] self.new_start(self.header(k)) + SOURCE_START_POS)
                    == NO_SOURCE
                &&& u32_at(t, self.new_start(self.header(k)) + SOURCE_COUNT_POS) == 0
            }
    }

    /// Every section starts within the container.
    pub proof fn lemma_start_bounds(self, i: int)
        requires
            self.table_ok(),
            0 <= i <= self.n(),
        ensures
            self.start(0) <= self.start(i) <= self.length,
    {
        if i < self.n() {
            assert(self.offset(0) <= self.offset(i));
            assert(self.offset(i) <= self.offset(self.n() - 1));
        }
    }

    /// Each section's length is not negative.
    pub proof fn lemma_sec_len_nonneg(self, i: int)
        requires
            self.table_ok(),
            0 <= i < self.n(),
        ensures
            self.sec_len(i) >= 0,
    {
        if i + 1 < self.n() {
            assert(self.offset(i) <= self.offset(i + 1));
        }
    }

    /// A compacted section starts where the previous kept one ends.
    pub proof fn lemma_new_start_step(self, i: int)
        requires
            self.table_ok(),
            0 <= i < self.n(),
        ensures
            self.new_start(i + 1) == self.new_start(i) + if self.removed(i) {
                0
            } else {
                self.sec_len(i)
            },
            self.sec_len(i) >= 0,
    {
        self.lemma_sec_len_nonneg(i);
    }

    /// Compacted sections keep their order, and none starts before section 0
    /// did or after where it started before.
    pub proof fn lemma_new_start_mono(self, j: int, i: int)
        requires
            self.table_ok(),
            0 <= j <= i <= self.n(),
        ensures
            self.new_start(j) <= self.new_start(i),
            self.new_start(0) == self.start(0),
            self.new_start(i) <= self.start(i),
            self.dropped_before(j) <= self.dropped_before(i),
            0 <= self.dropped_before(i),
        decreases i,
    {
        if i > 0 {
            let jj = if j < i {
                j
            } else {
                i - 1
            };
            self.lemma_new_start_mono(jj, i - 1);
            self.lemma_new_start_step(i - 1);
        }
    }

    /// `length` bytes at `offset` of the buffer.
    pub fn read_bytes(&self, offset: usize, length: usize) -> (r: &[u8])
        requires
            offset + length <= self.data@.len(),
        ensures
            r@ == self.data@.subrange(offset as int, offset + length),
    {
        let dlen = self.data.len();
        vstd::slice::slice_subrange(self.data.as_slice(), offset, offset + length)
    }

    fn read_short(&self, offset: usize) -> (r: u16)
        requires
            offset + 2 <= self.data@.len(),
        ensures
            r == crate::bytes::u16_at(self.data@, offset as int),
    {
        read_u16_at(self.data.as_slice(), offset)
    }

    fn read_long(&self, offset: usize) -> (r: u32)
        requires
            offset + 4 <= self.data@.len(),
        ensures
            r == u32_at(self.data@, offset as int),
    {
        read_u32_at(self.data.as_slice(), offset)
    }

    fn write_long(&mut self, offset: usize, value: u32)
        requires
            offset + 4 <= old(self).data@.len(),
        ensures
            final(self).data@ == put_u32(old(self).data@, offset as int, value),
            final(self).length == old(self).length,
            final(self).num_sections == old(self).num_sections,
            final(self).mobi_section_indice@ == old(self).mobi_section_indice@,
    {
        write_u32_at(&mut self.data, offset, value)
    }

    /// Copies `length` bytes from `src_offset` down to `dst_offset`, ascending.
    fn move_ahead(&mut self, src_offset: usize, dst_offset: usize, length: usize)
        requires
            dst_offset <= src_offset,
            src_offset + length <= old(self).data@.len(),
        ensures
            final(self).data@.len() == old(self).data@.len(),
            final(self).length == old(self).length,
            final(self).num_sections == old(self).num_sections,
            final(self).mobi_section_indice@ == old(self).mobi_section_indice@,
            forall|p: int|
                dst_offset <= p < dst_offset + length ==> #[trigger] final(self).data@[p]
                    == old(self).data@[p + (src_offset - dst_offset)],
            forall|p: int|
                0 <= p < old(self).data@.len() && !(dst_offset <= p < dst_offset + length)
                    ==> #[trigger] final(self).data@[p] == old(self).data@[p],
    {
        let ghost before = self.data@;
        let dlen = self.data.len();
        let mut i: usize = 0;
        while i < length
            invariant
                dst_offset <= src_offset,
                src_offset + length <= before.len(),
                dlen == before.len(),
                i <= length,
                self.data@.len() == before.len(),
                self.length == old(self).length,
                self.num_sections == old(self).num_sections,
                self.mobi_section_indice@ == old(self).mobi_section_indice@,
                forall|p: int|
                    dst_offset <= p < dst_offset + i ==> #[trigger] self.data@[p] == before[p
                        + (src_offset - dst_offset)],
                forall|p: int|
                    0 <= p < before.len() && !(dst_offset <= p < dst_offset + i)
                        ==> #[trigger] self.data@[p] == before[p],
            decreases length - i,
        {
            let b = self.data[src_offset + i];
            self.data.set(dst_offset + i, b);
            i += 1;
        }
    }

    fn get_section_offset(&self, index: u32) -> (r: usize)
        requires
            entry_pos(index + 1) <= self.data@.len(),
        ensures
            r == self.offset(index as int),
    {
        let dlen = self.data.len();
        self.read_long(TABLE_POS + ENTRY_SIZE * index as usize) as usize
    }

    /// The byte range `(start, end)` of section `index`.
    fn get_section_addr(&self, index: u32) -> (r: (usize, usize))
        requires
            index < self.num_sections,
            entry_pos(self.n()) <= self.data@.len(),
        ensures
            r.0 == self.start(index as int),
            r.1 == self.start(index + 1),
    {
        let start = self.get_section_offset(index);
        let end = if index == self.num_sections - 1 {
            self.length
        } else {
            self.get_section_offset(index + 1)
        };
        (start, end)
    }

    fn get_section_length(&self, index: u32) -> (r: usize)
        requires
            index < self.num_sections,
            entry_pos(self.n()) <= self.data@.len(),
            self.start(index as int) <= self.start(index + 1),
        ensures
            r == self.sec_len(index as int),
    {
        let range = self.get_section_addr(index);
        range.1 - range.0
    }

    /// Section `index`, as a byte range of the buffer.
    pub fn get_section(&self, index: u32) -> (r: Section)
        requires
            self.table_ok(),
            index < self.num_sections,
        ensures
            r.index == index,
            r.start == self.start(index as int),
            r.end == self.start(index + 1),
            r.within(self.data@),
    {
        let range = self.get_section_addr(index);
        assert(self.offset(index as int) <= self.offset(self.n() - 1));
        if index + 1 < self.num_sections {
            assert(self.offset(index as int) <= self.offset(index + 1));
            assert(self.offset(index + 1) <= self.offset(self.n() - 1));
        }
        Section { index, start: range.0, end: range.1 }
    }

    fn set_section_addr_offset(&mut self, index: u32, offset: usize)
        requires
            entry_pos(index + 1) <= old(self).data@.len(),
            offset <= u32::MAX,
        ensures
            final(self).data@ == put_u32(old(self).data@, entry_pos(index as int), offset as u32),
            final(self).length == old(self).length,
            final(self).num_sections == old(self).num_sections,
            final(self).mobi_section_indice@ == old(self).mobi_section_indice@,
    {
        let dlen = self.data.len();
        self.write_long(TABLE_POS + ENTRY_SIZE * index as usize, offset as u32)
    }

    /// Where header generation `k` starts.
    pub open spec fn header_pos(self, k: int) -> int {
        self.offset(self.header(k))
    }

    /// Whether position `p` lies in the source descriptor of one of the
    /// first `k` header generations.
    pub open spec fn in_descriptor_upto(self, p: int, k: int) -> bool {
        exists|k2: int|
            0 <= k2 < k && self.header_pos(k2) + SOURCE_START_POS <= p < #[trigger] self.header_pos(k2)
                + HEADER_MIN_LEN
    }

    /// Whether position `p` lies in the source descriptor of a header generation.
    pub open spec fn in_descriptor(self, p: int) -> bool {
        self.in_descriptor_upto(p, self.nh())
    }

    /// Whether the header generations after `k1` and before `k` start past
    /// the end of generation `k1`'s descriptor.
    pub open spec fn later_headers_clear(self, k1: int, k: int) -> bool {
        forall|l: int| k1 < l < k ==> self.header_pos(k1) + HEADER_MIN_LEN <= #[trigger] self.header_pos(l)
    }

    /// The offset of section `i` is read from the same four bytes in both.
    pub proof fn lemma_same_offset(self, other: MobiFile, i: int)
        requires
            0 <= i,
            entry_pos(i) + 4 <= self.data@.len(),
            entry_pos(i) + 4 <= other.data@.len(),
            forall|p: int|
                entry_pos(i) <= p < entry_pos(i) + 4 ==> #[trigger] self.data@[p] == other.data@[p],
        ensures
            self.offset(i) == other.offset(i),
    {
        assert(self.data@[entry_pos(i) + 0] == other.data@[entry_pos(i) + 0]);
        assert(self.data@[entry_pos(i) + 1] == other.data@[entry_pos(i) + 1]);
        assert(self.data@[entry_pos(i) + 2] == other.data@[entry_pos(i) + 2]);
        assert(self.data@[entry_pos(i) + 3] == other.data@[entry_pos(i) + 3]);
    }

    /// Writes the "no source" sentinel into the descriptor of the header at `pos`.
    fn clear_descriptor(&mut self, pos: usize)
        requires
            pos + HEADER_MIN_LEN <= old(self).data@.len(),
        ensures
            final(self).data@.len() == old(self).data@.len(),
            final(self).length == old(self).length,
            final(self).num_sections == old(self).num_sections,
            final(self).mobi_section_indice@ == old(self).mobi_section_indice@,
            descriptor_cleared(final(self).data@, pos as int),
            forall|p: int|
                0 <= p < old(self).data@.len() && !(pos + SOURCE_START_POS <= p < pos + HEADER_MIN_LEN)
                    ==> #[trigger] final(self).data@[p] == old(self).data@[p],
    {
        let ghost before = self.data@;
        let dlen = self.data.len();
        self.write_long(pos + SOURCE_START_POS, NO_SOURCE);
        proof {
            lemma_read_after_put(before, pos + SOURCE_START_POS, NO_SOURCE);
        }
        let ghost mid = self.data@;
        self.write_long(pos + SOURCE_COUNT_POS, 0);
        proof {
            lemma_read_after_put(mid, pos + SOURCE_COUNT_POS, 0);
        }
    }

    /// Writes the "no source" sentinel into the descriptor of every header
    /// generation, in ascending order.
    #[verifier::rlimit(50)]
    fn clear_section_sources(&mut self)
        requires
            entry_pos(old(self).n()) <= old(self).data@.len(),
            forall|k: int| 0 <= k < old(self).nh() ==> #[trigger] old(self).header(k) < old(self).n(),
            forall|k: int|
                0 <= k < old(self).nh() ==> entry_pos(old(self).n()) <= #[trigger] old(self).header_pos(k)
                    && old(self).header_pos(k) + HEADER_MIN_LEN <= old(self).data@.len(),
        ensures
            final(self).data@.len() == old(self).data@.len(),
            final(self).length == old(self).length,
            final(self).num_sections == old(self).num_sections,
            final(self).mobi_section_indice@ == old(self).mobi_section_indice@,
            forall|p: int|
                0 <= p < old(self).data@.len() && !old(self).in_descriptor(p)
                    ==> #[trigger] final(self).data@[p] == old(self).data@[p],
            forall|k: int|
                0 <= k < old(self).nh() && old(self).later_headers_clear(k, old(self).nh())
                    ==> descriptor_cleared(final(self).data@, #[trigger] old(self).header_pos(k)),
    {
        let ghost f0: MobiFile = *self;
        let dlen = self.data.len();
        let mut k: usize = 0;
        while k < self.mobi_section_indice.len()
            invariant
                dlen == self.data@.len(),
                entry_pos(f0.n()) <= f0.data@.len(),
                forall|k: int| 0 <= k < f0.nh() ==> #[trigger] f0.header(k) < f0.n(),
                forall|k: int|
                    0 <= k < f0.nh() ==> entry_pos(f0.n()) <= #[trigger] f0.header_pos(k)
                        && f0.header_pos(k) + HEADER_MIN_LEN <= f0.data@.len(),
                k <= f0.nh(),
                self.data@.len() == f0.data@.len(),
                self.length == f0.length,
                self.num_sections == f0.num_sections,
                self.mobi_section_indice@ == f0.mobi_section_indice@,
                forall|p: int|
                    0 <= p < f0.data@.len() && !f0.in_descriptor_upto(p, k as int)
                        ==> #[trigger] self.data@[p] == f0.data@[p],
                forall|k1: int|
                    0 <= k1 < k && f0.later_headers_clear(k1, k as int) ==> descriptor_cleared(
                        self.data@,
                        #[trigger] f0.header_pos(k1),
                    ),
            decreases f0.nh() - k,
        {
            let index = self.mobi_section_indice[k];
            proof {
                assert(f0.header(k as int) == index);
                assert forall|p: int| entry_pos(index as int) <= p < entry_pos(index as int) + 4 implies #[trigger] self.data@[p] == f0.data@[p] by {
                    if f0.in_descriptor_upto(p, k as int) {
                        let k2 = choose|k2: int|
                            0 <= k2 < k && f0.header_pos(k2) + SOURCE_START_POS <= p < #[trigger] f0.header_pos(k2)
                                + HEADER_MIN_LEN;
                        assert(entry_pos(f0.n()) <= f0.header_pos(k2));
                    }
                }
                f0.lemma_same_offset(*self, index as int);
            }
            let section_offset = self.get_section_offset(index);
            let ghost before = self.data@;
            assert(f0.header_pos(k as int) == section_offset);
            self.clear_descriptor(section_offset);
            proof {
                assert(f0.header_pos(k as int) == section_offset);
                assert forall|k1: int|
                    0 <= k1 < k + 1 && f0.later_headers_clear(k1, k + 1) implies descriptor_cleared(
                        self.data@,
                        #[trigger] f0.header_pos(k1),
                    ) by {
                    if k1 < k {
                        assert(f0.header_pos(k1) + HEADER_MIN_LEN <= f0.header_pos(k as int));
                        assert(f0.later_headers_clear(k1, k as int));
                        let h = f0.header_pos(k1);
                        assert(before[h + SOURCE_START_POS] == self.data@[h + SOURCE_START_POS]);
                        assert(before[h + SOURCE_START_POS + 1] == self.data@[h + SOURCE_START_POS + 1]);
                        assert(before[h + SOURCE_START_POS + 2] == self.data@[h + SOURCE_START_POS + 2]);
                        assert(before[h + SOURCE_START_POS + 3] == self.data@[h + SOURCE_START_POS + 3]);
                        assert(before[h + SOURCE_COUNT_POS] == self.data@[h + SOURCE_COUNT_POS]);
                        assert(before[h + SOURCE_COUNT_POS + 1] == self.data@[h + SOURCE_COUNT_POS + 1]);
                        assert(before[h + SOURCE_COUNT_POS + 2] == self.data@[h + SOURCE_COUNT_POS + 2]);
                        assert(before[h + SOURCE_COUNT_POS + 3] == self.data@[h + SOURCE_COUNT_POS + 3]);
                    }
                }
                assert forall|p: int|
                    0 <= p < f0.data@.len() && !f0.in_descriptor_upto(p, k + 1)
                        implies #[trigger] self.data@[p] == f0.data@[p] by {
                    assert(!f0.in_descriptor_upto(p, k as int));
                    assert(!(f0.header_pos(k as int) + SOURCE_START_POS <= p < f0.header_pos(k as int) + HEADER_MIN_LEN));
                }
            }
            k += 1;
        }
    }

    /// The source range named by each header generation, in order.
    fn get_source_sections(&self) -> (r: Vec<Option<(u32, u32)>>)
        requires
            self.wf(),
        ensures
            r@.len() == self.nh(),
            forall|k: int|
                0 <= k < self.nh() ==> #[trigger] r@[k] == descriptor_of(
                    self.data@,
                    self.offset(self.header(k)),
                ),
    {
        let mut r: Vec<Option<(u32, u32)>> = Vec::new();
        let mut k: usize = 0;
        while k < self.mobi_section_indice.len()
            invariant
                self.wf(),
                k <= self.nh(),
                r@.len() == k,
                forall|k1: int|
                    0 <= k1 < k ==> #[trigger] r@[k1] == descriptor_of(
                        self.data@,
                        self.offset(self.header(k1)),
                    ),
            decreases self.nh() - k,
        {
            let index = self.mobi_section_indice[k];
            assert(self.header(k as int) == index);
            let section = self.get_section(index);
            r.push(section.get_source_section_indice(self.data.as_slice()));
            k += 1;
        }
        r
    }

    /// Drops every section that a header generation names as source, moving
    /// the later sections down and rewriting their table offsets, then clears
    /// every generation's source descriptor. Returns the new length.
    #[verifier::rlimit(100)]
    pub fn remove_sources(&mut self) -> (r: usize)
        requires
            old(self).wf(),
        ensures
            old(self).compacts_to(*final(self)),
            r == final(self).length,
            r == old(self).length - old(self).dropped(),
            forall|i: int|
                0 <= i < old(self).n() ==> #[trigger] final(self).offset(i) == old(self).offset(i)
                    - old(self).dropped_before(i),
    {
        let ghost f0: MobiFile = *self;
        let sources = self.get_source_sections();
        let dlen = self.data.len();
        proof {
            f0.lemma_new_start_mono(0, 0);
        }
        let mut delta: usize = 0;
        let mut i: u32 = 0;
        while i < self.num_sections
            invariant
                f0.wf(),
                dlen == f0.data@.len(),
                sources@.len() == f0.nh(),
                forall|k: int|
                    0 <= k < f0.nh() ==> #[trigger] sources@[k] == descriptor_of(
                        f0.data@,
                        f0.header_pos(k),
                    ),
                self.data@.len() == f0.data@.len(),
                self.length == f0.length,
                self.num_sections == f0.num_sections,
                self.mobi_section_indice@ == f0.mobi_section_indice@,
                i <= f0.n(),
                delta == f0.dropped_before(i as int),
                forall|j: int| 0 <= j < i ==> #[trigger] self.offset(j) == f0.new_start(j),
                forall|p: int|
                    0 <= p < f0.offset(0) && !in_offset_fields(p, i as int)
                        ==> #[trigger] self.data@[p] == f0.data@[p],
                forall|j: int, p: int|
                    #![trigger f0.dropped_before(j), self.data@[p]]
                    0 <= j < i && !f0.removed(j) && f0.new_start(j) <= p < f0.new_start(j)
                        + f0.sec_len(j) ==> self.data@[p] == f0.data@[p + f0.dropped_before(j)],
                forall|p: int| f0.start(i as int) <= p < f0.data@.len() ==> #[trigger] self.data@[p] == f0.data@[p],
            decreases f0.n() - i,
        {
            proof {
                f0.lemma_new_start_mono(0, i as int);
                f0.lemma_new_start_mono(i as int, i + 1);
                f0.lemma_new_start_step(i as int);
                assert(f0.offset(i as int) <= f0.offset(f0.n() - 1));
                f0.lemma_same_offset(*self, i as int);
                if i + 1 < f0.n() {
                    f0.lemma_same_offset(*self, i + 1);
                    assert(f0.offset(i + 1) <= f0.offset(f0.n() - 1));
                }
            }
            let length = self.get_section_length(i);
            let offset = self.get_section_offset(i);
            let ghost g1: MobiFile = *self;
            self.set_section_addr_offset(i, offset - delta);
            proof {
                lemma_read_after_put(g1.data@, entry_pos(i as int), (offset - delta) as u32);
                assert forall|j: int| 0 <= j < i + 1 implies #[trigger] self.offset(j) == f0.new_start(j) by {
                    if j < i {
                        g1.lemma_same_offset(*self, j);
                    }
                }
                assert forall|p: int|
                    0 <= p < f0.offset(0) && !in_offset_fields(p, i + 1)
                        implies #[trigger] self.data@[p] == f0.data@[p] by {
                    assert(!in_offset_fields(p, i as int));
                    assert(!(entry_pos(i as int) <= p < entry_pos(i as int) + 4));
                }
                assert forall|j: int, p: int|
                    0 <= j < i && !f0.removed(j) && f0.new_start(j) <= p < f0.new_start(j)
                        + f0.sec_len(j) implies #[trigger] self.data@[p] == f0.data@[p + #[trigger] f0.dropped_before(j)] by {
                    f0.lemma_new_start_mono(0, j);
                    assert(g1.data@[p] == f0.data@[p + f0.dropped_before(j)]);
                }
            }
            let removed = is_source(&sources, i);
            proof {
                if removed {
                    let k = choose|k: int| 0 <= k < sources@.len() && range_holds(#[trigger] sources@[k], i as int);
                    assert(f0.names(k, i as int));
                } else {
                    assert forall|k: int| 0 <= k < f0.nh() implies !#[trigger] f0.names(k, i as int) by {
                        assert(!range_holds(sources@[k], i as int));
                    }
                }
                assert(removed == f0.removed(i as int));
            }
            if removed {
                delta += length;
            } else {
                let ghost g2: MobiFile = *self;
                self.move_ahead(offset, offset - delta, length);
                proof {
                    assert forall|j: int| 0 <= j < i + 1 implies #[trigger] self.offset(j) == f0.new_start(j) by {
                        g2.lemma_same_offset(*self, j);
                    }
                    assert forall|p: int|
                        0 <= p < f0.offset(0) && !in_offset_fields(p, i + 1)
                            implies #[trigger] self.data@[p] == f0.data@[p] by {
                    }
                    assert forall|j: int, p: int|
                        0 <= j < i + 1 && !f0.removed(j) && f0.new_start(j) <= p < f0.new_start(j)
                            + f0.sec_len(j) implies #[trigger] self.data@[p] == f0.data@[p + #[trigger] f0.dropped_before(j)] by {
                        if j < i {
                            f0.lemma_new_start_mono(j + 1, i as int);
                            f0.lemma_new_start_mono(0, j);
                            f0.lemma_new_start_step(j);
                            assert(g2.data@[p] == f0.data@[p + f0.dropped_before(j)]);
                            assert(p < offset - delta);
                        } else {
                            assert(j == i);
                            assert(f0.dropped_before(j) == delta);
                            assert(g2.data@[p + f0.dropped_before(j)] == f0.data@[p + f0.dropped_before(j)]);
                        }
                    }
                }
            }
            proof {
                assert forall|p: int| f0.start(i + 1) <= p < f0.data@.len() implies #[trigger] self.data@[p] == f0.data@[p] by {
                }
            }
            i += 1;
        }
        proof {
            f0.lemma_new_start_mono(0, f0.n());
            assert forall|k: int| 0 <= k < self.nh() implies #[trigger] self.header_pos(k) == f0.new_start(f0.header(k)) && entry_pos(self.n()) <= self.header_pos(k) && self.header_pos(k) + HEADER_MIN_LEN <= self.data@.len() by {
                assert(self.header(k) == f0.header(k));
                assert(f0.header(k) < f0.n());
                f0.lemma_new_start_mono(0, f0.header(k));
                assert(f0.offset(f0.header(k)) <= f0.offset(f0.n() - 1));
                if f0.header(k) + 1 < f0.n() {
                    assert(f0.offset(f0.header(k) + 1) <= f0.offset(f0.n() - 1));
                }
                assert(f0.sec_len(f0.header(k)) >= HEADER_MIN_LEN);
            }
            assert forall|k: int| 0 <= k < self.nh() implies #[trigger] self.header(k) < self.n() by {
                assert(self.header(k) == f0.header(k));
            }
        }
        let ghost g3: MobiFile = *self;
        self.clear_section_sources();
        self.length = self.length - delta;
        proof {
            f0.lemma_compaction_result(g3, *self);
        }
        self.length
    }

    /// `mid` is `self` after the compaction pass, before any descriptor is cleared.
    pub open spec fn passed_to(self, mid: MobiFile) -> bool {
        &&& mid.data@.len() == self.data@.len()
        &&& mid.length == self.length
        &&& mid.num_sections == self.num_sections
        &&& mid.mobi_section_indice@ == self.mobi_section_indice@
        &&& forall|j: int| 0 <= j < self.n() ==> #[trigger] mid.offset(j) == self.new_start(j)
        &&& forall|p: int|
            0 <= p < self.offset(0) && !in_offset_fields(p, self.n())
                ==> #[trigger] mid.data@[p] == self.data@[p]
        &&& forall|j: int, p: int|
            #![trigger self.dropped_before(j), mid.data@[p]]
            0 <= j < self.n() && !self.removed(j) && self.new_start(j) <= p < self.new_start(j)
                + self.sec_len(j) ==> mid.data@[p] == self.data@[p + self.dropped_before(j)]
        &&& forall|p: int| self.start(self.n()) <= p < self.data@.len() ==> #[trigger] mid.data@[p] == self.data@[p]
        &&& forall|k: int| 0 <= k < self.nh() ==> #[trigger] mid.header_pos(k) == self.new_start(self.header(k))
    }

    /// `after` is `mid` with every header generation's descriptor cleared and
    /// the length of `self` less the dropped bytes.
    pub open spec fn cleared_to(self, mid: MobiFile, after: MobiFile) -> bool {
        &&& after.data@.len() == mid.data@.len()
        &&& after.num_sections == mid.num_sections
        &&& after.mobi_section_indice@ == mid.mobi_section_indice@
        &&& after.length == self.length - self.dropped()
        &&& forall|p: int|
            0 <= p < mid.data@.len() && !mid.in_descriptor(p)
                ==> #[trigger] after.data@[p] == mid.data@[p]
        &&& forall|k: int|
            0 <= k < mid.nh() && mid.later_headers_clear(k, mid.nh())
                ==> descriptor_cleared(after.data@, #[trigger] mid.header_pos(k))
    }

    /// The compacted table offsets, and the bytes before the sections.
    #[verifier::rlimit(100)]
    proof fn lemma_result_table(self, mid: MobiFile, after: MobiFile)
        requires
            self.wf(),
            self.passed_to(mid),
            self.cleared_to(mid, after),
        ensures
            forall|i: int| 0 <= i < self.n() ==> #[trigger] after.offset(i) == self.new_start(i),
            forall|p: int|
                0 <= p < self.offset(0) && !in_offset_fields(p, self.n())
                    ==> #[trigger] after.data@[p] == self.data@[p],
    {
        self.lemma_new_start_mono(0, self.n());
        assert forall|p: int| 0 <= p < self.offset(0) implies !mid.in_descriptor(p) by {
            if mid.in_descriptor(p) {
                let k = choose|k: int|
                    0 <= k < mid.nh() && mid.header_pos(k) + SOURCE_START_POS <= p < #[trigger] mid.header_pos(k)
                        + HEADER_MIN_LEN;
                self.lemma_new_start_mono(0, self.header(k));
            }
        }
        assert forall|i: int| 0 <= i < self.n() implies #[trigger] after.offset(i) == self.new_start(i) by {
            assert(entry_pos(i) + 4 <= entry_pos(self.n()));
            assert forall|p: int| entry_pos(i) <= p < entry_pos(i) + 4 implies #[trigger] after.data@[p] == mid.data@[p] by {
                assert(!mid.in_descriptor(p));
            }
            mid.lemma_same_offset(after, i);
        }

    }

    /// The bytes past the container are kept.
    #[verifier::rlimit(100)]
    proof fn lemma_result_tail(self, mid: MobiFile, after: MobiFile)
        requires
            self.wf(),
            self.passed_to(mid),
            self.cleared_to(mid, after),
        ensures
            forall|p: int| self.length <= p < self.data@.len() ==> #[trigger] after.data@[p] == self.data@[p],
    {
        self.lemma_new_start_mono(0, self.n());
        assert forall|p: int| self.length <= p < self.data@.len() implies #[trigger] after.data@[p] == self.data@[p] by {
            if mid.in_descriptor(p) {
                let k = choose|k: int|
                    0 <= k < mid.nh() && mid.header_pos(k) + SOURCE_START_POS <= p < #[trigger] mid.header_pos(k)
                        + HEADER_MIN_LEN;
                let h = self.header(k);
                assert(h < self.n());
                assert(self.sec_len(h) >= HEADER_MIN_LEN);
                self.lemma_new_start_mono(h, h);
                self.lemma_start_bounds(h + 1);
                assert(false);
            }
            assert(mid.data@[p] == self.data@[p]);
        }
    }

    /// The kept sections' bytes, outside the descriptors.
    #[verifier::rlimit(100)]
    proof fn lemma_result_kept(self, mid: MobiFile, after: MobiFile)
        requires
            self.wf(),
            self.passed_to(mid),
            self.cleared_to(mid, after),
        ensures
            forall|i: int, p: int|
                #![trigger self.dropped_before(i), after.data@[p]]
                0 <= i < self.n() && !self.removed(i) && self.new_start(i) <= p < self.new_start(i)
                    + self.sec_len(i) && !self.in_new_descriptor(p) ==> after.data@[p] == self.data@[p
                    + self.dropped_before(i)],
    {
        self.lemma_new_start_mono(0, self.n());
        assert forall|i: int, p: int|
            #![trigger self.dropped_before(i), after.data@[p]]
            0 <= i < self.n() && !self.removed(i) && self.new_start(i) <= p < self.new_start(i)
                + self.sec_len(i) && !self.in_new_descriptor(p) implies after.data@[p] == self.data@[p
                + self.dropped_before(i)] by {
            self.lemma_new_start_mono(0, i);
            self.lemma_new_start_mono(i, i + 1);
            self.lemma_new_start_step(i);
            self.lemma_new_start_mono(i + 1, self.n());
            assert(mid.data@[p] == self.data@[p + self.dropped_before(i)]);
            if mid.in_descriptor(p) {
                let k = choose|k: int|
                    0 <= k < mid.nh() && mid.header_pos(k) + SOURCE_START_POS <= p < #[trigger] mid.header_pos(k)
                        + HEADER_MIN_LEN;
                assert(self.in_new_descriptor(p));
            }
        }

    }

    /// The kept header generations' descriptors are cleared.
    #[verifier::rlimit(100)]
    proof fn lemma_result_descriptors(self, mid: MobiFile, after: MobiFile)
        requires
            self.wf(),
            self.passed_to(mid),
            self.cleared_to(mid, after),
        ensures
            forall|k: int|
                0 <= k < self.nh() && !self.removed(self.header(k)) ==> {
                    &&& u32_at(after.data@, #[trigger] self.new_start(self.header(k)) + SOURCE_START_POS)
                        == NO_SOURCE
                    &&& u32_at(after.data@, self.new_start(self.header(k)) + SOURCE_COUNT_POS) == 0
                },
    {
        self.lemma_new_start_mono(0, self.n());
        assert forall|k: int|
            0 <= k < self.nh() && !self.removed(self.header(k)) implies {
                &&& u32_at(after.data@, #[trigger] self.new_start(self.header(k)) + SOURCE_START_POS)
                    == NO_SOURCE
                &&& u32_at(after.data@, self.new_start(self.header(k)) + SOURCE_COUNT_POS) == 0
            } by {
            let h = self.header(k);
            assert forall|l: int| k < l < mid.nh() implies mid.header_pos(k) + HEADER_MIN_LEN <= #[trigger] mid.header_pos(l) by {
                assert(self.header(k) < self.header(l));
                assert(self.header(l) < self.n());
                self.lemma_new_start_step(h);
                self.lemma_new_start_mono(h + 1, self.header(l));
            }
            assert(mid.later_headers_clear(k, mid.nh()));
        }
    }

    /// What the compaction pass and the clearing of the descriptors leave.
    proof fn lemma_compaction_result(self, mid: MobiFile, after: MobiFile)
        requires
            self.wf(),
            self.passed_to(mid),
            self.cleared_to(mid, after),
        ensures
            self.compacts_to(after),
    {
        self.lemma_result_table(mid, after);
        self.lemma_result_tail(mid, after);
        self.lemma_result_kept(mid, after);
        self.lemma_result_descriptors(mid, after);
    }
}

/// Whether one of the source ranges holds section index `i`.
pub fn is_source(sources: &Vec<Option<(u32, u32)>>, i: u32) -> (r: bool)
    ensures
        r == exists|k: int| 0 <= k < sources@.len() && range_holds(#[trigger] sources@[k], i as int),
{
    let mut k: usize = 0;
    while k < sources.len()
        invariant
            k <= sources@.len(),
            forall|k1: int| 0 <= k1 < k ==> !range_holds(#[trigger] sources@[k1], i as int),
        decreases sources@.len() - k,
    {
        match sources[k] {
            Some((first, count)) => {
                if first <= i && i - first < count {
                    assert(range_holds(sources@[k as int], i as int));
                    return true;
                }
            },
            None => {},
        }
        k += 1;
    }
    false
}

} // verus!
