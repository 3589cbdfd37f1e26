//! Laws that relate a container to its compaction.

use vstd::prelude::*;
use crate::bytes::{u32_at, lemma_same_u32_same_bytes};
use crate::mobi::{MobiFile, in_offset_fields, entry_pos};
use crate::section::{
    descriptor_cleared, is_header_range, header_magic, HEADER_MIN_LEN, HEADER_MAGIC_POS,
    SOURCE_START_POS, SOURCE_COUNT_POS,
};

verus! {

impl MobiFile {
    /// Nothing is dropped before any section when no section is removed.
    pub proof fn lemma_nothing_dropped(self, i: int)
        requires
            forall|j: int| 0 <= j < self.n() ==> !#[trigger] self.removed(j),
            0 <= i <= self.n(),
        ensures
            self.dropped_before(i) == 0,
        decreases i,
    {
        if i > 0 {
            self.lemma_nothing_dropped(i - 1);
        }
    }

    /// A position in the container past section `i`'s start lies in some section.
    pub proof fn lemma_section_of(self, p: int, i: int) -> (j: int)
        requires
            self.table_ok(),
            0 <= i < self.n(),
            self.start(i) <= p < self.length,
        ensures
            i <= j < self.n(),
            self.start(j) <= p < self.start(j + 1),
        decreases self.n() - i,
    {
        if p < self.start(i + 1) {
            i
        } else {
            self.lemma_section_of(p, i + 1)
        }
    }
}

/// A byte before the sections, where no section is removed.
proof fn lemma_no_removal_prefix_byte(before: MobiFile, after: MobiFile, p: int)
    requires
        before.wf(),
        before.compacts_to(after),
        forall|i: int| 0 <= i < before.n() ==> !#[trigger] before.removed(i),
        0 <= p < before.offset(0),
    ensures
        after.data@[p] == before.data@[p],
{
    let s = before.data@;
    let t = after.data@;
    if in_offset_fields(p, before.n()) {
        let j = choose|j: int| 0 <= j < before.n() && entry_pos(j) <= p < #[trigger] entry_pos(j) + 4;
        before.lemma_nothing_dropped(j);
        assert(after.offset(j) == before.offset(j));
        lemma_same_u32_same_bytes(s, t, entry_pos(j), entry_pos(j));
    }
}

/// A byte of a section outside the descriptors, where no section is removed.
#[verifier::rlimit(100)]
proof fn lemma_no_removal_section_byte(before: MobiFile, after: MobiFile, p: int)
    requires
        before.wf(),
        before.compacts_to(after),
        forall|i: int| 0 <= i < before.n() ==> !#[trigger] before.removed(i),
        before.offset(0) <= p < before.length,
        !before.in_descriptor(p),
    ensures
        after.data@[p] == before.data@[p],
{
    let i = before.lemma_section_of(p, 0);
    before.lemma_nothing_dropped(i);
    if before.in_new_descriptor(p) {
        let k = choose|k: int|
            0 <= k < before.nh() && before.new_start(before.header(k)) + SOURCE_START_POS <= p
                < #[trigger] before.new_start(before.header(k)) + HEADER_MIN_LEN;
        before.lemma_nothing_dropped(before.header(k));
        assert(before.header(k) < before.n());
        assert(before.header_pos(k) == before.new_start(before.header(k)));
        assert(before.in_descriptor_upto(p, before.nh()));
    }
    assert(!before.in_new_descriptor(p));
    assert(before.new_start(i) <= p < before.new_start(i) + before.sec_len(i));
    assert(after.data@[p] == before.data@[p + before.dropped_before(i)]);
}

/// Where no section is removed, compaction keeps the length, the section
/// table and every byte outside the header generations' source descriptors.
pub proof fn lemma_no_removal_keeps_layout(before: MobiFile, after: MobiFile)
    requires
        before.wf(),
        before.compacts_to(after),
        forall|i: int| 0 <= i < before.n() ==> !#[trigger] before.removed(i),
    ensures
        after.length == before.length,
        forall|i: int| 0 <= i < before.n() ==> #[trigger] after.offset(i) == before.offset(i),
        after.data@.len() == before.data@.len(),
        forall|p: int|
            0 <= p < before.data@.len() && !before.in_descriptor(p) ==> #[trigger] after.data@[p]
                == before.data@[p],
{
    before.lemma_nothing_dropped(before.n());
    assert forall|i: int| 0 <= i < before.n() implies #[trigger] after.offset(i) == before.offset(i) by {
        before.lemma_nothing_dropped(i);
    }
    assert forall|p: int|
        0 <= p < before.data@.len() && !before.in_descriptor(p) implies #[trigger] after.data@[p]
            == before.data@[p] by {
        if p < before.offset(0) {
            lemma_no_removal_prefix_byte(before, after, p);
        } else if p < before.length {
            lemma_no_removal_section_byte(before, after, p);
        }
    }
}

/// A byte of a descriptor that already read as "no source", where no
/// section is removed.
#[verifier::rlimit(100)]
proof fn lemma_noop_descriptor_byte(before: MobiFile, after: MobiFile, p: int)
    requires
        before.wf(),
        before.compacts_to(after),
        forall|i: int| 0 <= i < before.n() ==> !#[trigger] before.removed(i),
        forall|k: int| 0 <= k < before.nh() ==> descriptor_cleared(before.data@, #[trigger] before.header_pos(k)),
        before.in_descriptor(p),
    ensures
        after.data@[p] == before.data@[p],
{
    let s = before.data@;
    let t = after.data@;
    let k = choose|k: int|
        0 <= k < before.nh() && before.header_pos(k) + SOURCE_START_POS <= p
            < #[trigger] before.header_pos(k) + HEADER_MIN_LEN;
    let h = before.header(k);
    before.lemma_nothing_dropped(h);
    assert(before.new_start(h) == before.header_pos(k));
    assert(!before.removed(h));
    assert(before.sec_len(h) >= HEADER_MIN_LEN);
    before.lemma_start_bounds(h + 1);
    let q = before.header_pos(k);
    assert(descriptor_cleared(s, q));
    assert(u32_at(t, before.new_start(h) + SOURCE_START_POS) == u32_at(s, q + SOURCE_START_POS));
    assert(u32_at(t, before.new_start(h) + SOURCE_COUNT_POS) == u32_at(s, q + SOURCE_COUNT_POS));
    lemma_same_u32_same_bytes(s, t, q + SOURCE_START_POS, q + SOURCE_START_POS);
    lemma_same_u32_same_bytes(s, t, q + SOURCE_COUNT_POS, q + SOURCE_COUNT_POS);
}

/// Where no section is removed and every header generation's descriptor
/// already reads as "no source", compaction changes nothing.
pub proof fn lemma_no_removal_is_noop(before: MobiFile, after: MobiFile)
    requires
        before.wf(),
        before.compacts_to(after),
        forall|i: int| 0 <= i < before.n() ==> !#[trigger] before.removed(i),
        forall|k: int| 0 <= k < before.nh() ==> descriptor_cleared(before.data@, #[trigger] before.header_pos(k)),
    ensures
        after.length == before.length,
        after.data@ == before.data@,
{
    lemma_no_removal_keeps_layout(before, after);
    assert forall|p: int| 0 <= p < before.data@.len() implies #[trigger] after.data@[p] == before.data@[p] by {
        if before.in_descriptor(p) {
            lemma_noop_descriptor_byte(before, after, p);
        }
    }
    assert(after.data@ =~= before.data@);
}

/// The sections of two kept header generations lie apart after compaction,
/// each holding its whole header.
proof fn lemma_headers_apart(a: MobiFile, k: int, k2: int)
    requires
        a.wf(),
        0 <= k < k2 < a.nh(),
        !a.removed(a.header(k)),
    ensures
        a.new_start(a.header(k)) + HEADER_MIN_LEN <= a.new_start(a.header(k2)),
{
    let h = a.header(k);
    let h2 = a.header(k2);
    assert(h < h2);
    assert(h2 < a.n());
    assert(a.sec_len(h) >= HEADER_MIN_LEN);
    a.lemma_new_start_step(h);
    a.lemma_new_start_mono(h + 1, h2);
}

/// A byte of a kept header's magic after compaction, where no header
/// generation is removed.
proof fn lemma_after_magic_byte(a: MobiFile, b: MobiFile, k: int, p: int)
    requires
        a.wf(),
        forall|i: int, p: int|
            #![trigger a.dropped_before(i), b.data@[p]]
            0 <= i < a.n() && !a.removed(i) && a.new_start(i) <= p < a.new_start(i)
                + a.sec_len(i) && !a.in_new_descriptor(p) ==> b.data@[p] == a.data@[p
                + a.dropped_before(i)],
        forall|k: int| 0 <= k < a.nh() ==> !a.removed(#[trigger] a.header(k)),
        0 <= k < a.nh(),
        a.new_start(a.header(k)) + HEADER_MAGIC_POS <= p < a.new_start(a.header(k)) + HEADER_MAGIC_POS + 4,
    ensures
        b.data@[p] == a.data@[p + a.dropped_before(a.header(k))],
{
    let h = a.header(k);
    assert(h < a.n());
    assert(a.sec_len(h) >= HEADER_MIN_LEN);
    if a.in_new_descriptor(p) {
        let k2 = choose|k2: int|
            0 <= k2 < a.nh() && a.new_start(a.header(k2)) + SOURCE_START_POS <= p
                < #[trigger] a.new_start(a.header(k2)) + HEADER_MIN_LEN;
        if k2 < k {
            lemma_headers_apart(a, k2, k);
        } else if k2 > k {
            lemma_headers_apart(a, k, k2);
        }
    }
}

/// Compaction keeps the section table well formed.
proof fn lemma_after_table(a: MobiFile, b: MobiFile)
    requires
        a.wf(),
        a.compacts_to(b),
    ensures
        b.table_ok(),
{
    a.lemma_new_start_mono(0, a.n());
    assert forall|i: int, j: int| 0 <= i <= j < b.n() implies #[trigger] b.offset(i) <= #[trigger] b.offset(j) by {
        a.lemma_new_start_mono(i, j);
    }
    a.lemma_new_start_mono(a.n() - 1, a.n());
}

/// A kept header generation's section stays a full header record.
#[verifier::rlimit(100)]
#[verifier::spinoff_prover]
proof fn lemma_after_header(a: MobiFile, b: MobiFile, k: int)
    requires
        a.wf(),
        b.data@.len() == a.data@.len(),
        b.num_sections == a.num_sections,
        b.length == a.length - a.dropped(),
        forall|i: int| 0 <= i < a.n() ==> #[trigger] b.offset(i) == a.new_start(i),
        forall|i: int, p: int|
            #![trigger a.dropped_before(i), b.data@[p]]
            0 <= i < a.n() && !a.removed(i) && a.new_start(i) <= p < a.new_start(i)
                + a.sec_len(i) && !a.in_new_descriptor(p) ==> b.data@[p] == a.data@[p
                + a.dropped_before(i)],
        forall|k: int| 0 <= k < a.nh() ==> !a.removed(#[trigger] a.header(k)),
        0 <= k < a.nh(),
    ensures
        b.sec_len(a.header(k)) >= HEADER_MIN_LEN,
        is_header_range(b.data@, b.start(a.header(k)), b.start(a.header(k) + 1)),
{
    reveal(is_header_range);
    let h = a.header(k);
    assert(h < a.n());
    a.lemma_new_start_step(h);
    assert(b.start(h) == a.new_start(h));
    assert(b.start(h + 1) == a.new_start(h + 1));
    assert(a.sec_len(h) >= HEADER_MIN_LEN);
    let q = a.new_start(h);
    let d = a.dropped_before(h);
    a.lemma_new_start_mono(0, h);
    a.lemma_new_start_mono(h + 1, h + 1);
    a.lemma_start_bounds(h + 1);
    assert(q + d == a.start(h));
    assert(is_header_range(a.data@, a.start(h), a.start(h + 1)));
    let am = a.data@.subrange(a.start(h) + HEADER_MAGIC_POS, a.start(h) + HEADER_MAGIC_POS + 4);
    assert(am == header_magic());
    assert forall|m: int| 0 <= m < 4 implies #[trigger] b.data@.subrange(q + HEADER_MAGIC_POS, q + HEADER_MAGIC_POS + 4)[m]
        == header_magic()[m] by {
        lemma_after_magic_byte(a, b, k, q + HEADER_MAGIC_POS + m);
        assert(b.data@[q + HEADER_MAGIC_POS + m] == a.data@[a.start(h) + HEADER_MAGIC_POS + m]);
        assert(am[m] == a.data@[a.start(h) + HEADER_MAGIC_POS + m]);
    }
    assert(b.data@.subrange(q + HEADER_MAGIC_POS, q + HEADER_MAGIC_POS + 4) =~= header_magic());
}

/// Compaction keeps a container well formed where no header generation is removed.
#[verifier::rlimit(100)]
#[verifier::spinoff_prover]
pub proof fn lemma_compaction_keeps_wf(a: MobiFile, b: MobiFile)
    requires
        a.wf(),
        a.compacts_to(b),
        forall|k: int| 0 <= k < a.nh() ==> !a.removed(#[trigger] a.header(k)),
    ensures
        b.wf(),
{
    lemma_after_table(a, b);
    assert forall|k: int| 0 <= k < b.nh() implies b.sec_len(#[trigger] b.header(k)) >= HEADER_MIN_LEN
        && is_header_range(b.data@, b.start(b.header(k)), b.start(b.header(k) + 1)) by {
        assert(b.header(k) == a.header(k));
        lemma_after_header(a, b, k);
    }
    assert(b.nh() == a.nh());
    assert(b.header(0) == 0);
    assert(forall|k: int| 0 <= k < b.nh() ==> #[trigger] b.header(k) == a.header(k));
    assert(b.headers_ok());
}

/// Compacting the result of a compaction changes nothing, where the first
/// compaction removed no header generation: every descriptor then reads as
/// "no source", so nothing more is removed and nothing more is written.
pub proof fn lemma_compaction_idempotent(a: MobiFile, b: MobiFile, c: MobiFile)
    requires
        a.wf(),
        a.compacts_to(b),
        b.compacts_to(c),
        forall|k: int| 0 <= k < a.nh() ==> !a.removed(#[trigger] a.header(k)),
    ensures
        c.length == b.length,
        c.data@ == b.data@,
{
    lemma_compaction_keeps_wf(a, b);
    assert forall|k: int| 0 <= k < b.nh() implies descriptor_cleared(b.data@, #[trigger] b.header_pos(k)) by {
        assert(b.header(k) == a.header(k));
        assert(a.header(k) < a.n());
        assert(b.header_pos(k) == a.new_start(a.header(k)));
        assert(!a.removed(a.header(k)));
    }
    assert forall|i: int| 0 <= i < b.n() implies !#[trigger] b.removed(i) by {
        if b.removed(i) {
            let k = choose|k: int| 0 <= k < b.nh() && #[trigger] b.names(k, i);
            assert(descriptor_cleared(b.data@, b.header_pos(k)));
        }
    }
    lemma_no_removal_is_noop(b, c);
}

} // verus!
