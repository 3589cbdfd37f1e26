//! A section of the container as a byte range, and the header record
//! that some sections hold.

use vstd::prelude::*;
use crate::bytes::{read_u32_at, u32_at};
use crate::bytes::FormatError;

verus! {

/// Offset of the header magic within a header section.
pub const HEADER_MAGIC_POS: usize = 0x10;
/// Offset of the text encoding id within a header section.
pub const ENCODING_POS: usize = 0x1c;
/// Offset of the header format version within a header section.
pub const VERSION_POS: usize = 0x24;
/// Offset of the title's position within a header section.
pub const TITLE_OFFSET_POS: usize = 0x54;
/// Offset of the title's length within a header section.
pub const TITLE_LENGTH_POS: usize = 0x58;
/// Offset of the first source section index within a header section.
pub const SOURCE_START_POS: usize = 0xe0;
/// Offset of the source section count within a header section.
pub const SOURCE_COUNT_POS: usize = 0xe4;
/// The shortest header section that holds every field read from it.
pub const HEADER_MIN_LEN: usize = 0xe8;
/// The first source section index that means "no source sections".
pub const NO_SOURCE: u32 = 0xffff_ffff;

/// The content of a boundary section: `BOUNDARY`.
pub open spec fn boundary_magic() -> Seq<u8> {
    seq![0x42u8, 0x4fu8, 0x55u8, 0x4eu8, 0x44u8, 0x41u8, 0x52u8, 0x59u8]
}

/// The magic of a header record: `MOBI`.
pub open spec fn header_magic() -> Seq<u8> {
    seq![0x4du8, 0x4fu8, 0x42u8, 0x49u8]
}

/// Whether the range `[start, end)` of `s` is exactly the boundary sentinel.
pub open spec fn is_boundary_range(s: Seq<u8>, start: int, end: int) -> bool {
    s.subrange(start, end) == boundary_magic()
}

/// Whether the range `[start, end)` of `s` carries the header magic.
#[verifier::opaque]
pub open spec fn is_header_range(s: Seq<u8>, start: int, end: int) -> bool {
    end - start >= HEADER_MAGIC_POS + 4
        && s.subrange(start + HEADER_MAGIC_POS, start + HEADER_MAGIC_POS + 4) == header_magic()
}

/// The source range that a header at `hpos` names, as (first index, count);
/// `None` where it names none.
pub open spec fn descriptor_of(s: Seq<u8>, hpos: int) -> Option<(u32, u32)> {
    let first = u32_at(s, hpos + SOURCE_START_POS);
    let count = u32_at(s, hpos + SOURCE_COUNT_POS);
    if first == NO_SOURCE || count == 0 {
        None
    } else {
        Some((first, count))
    }
}

/// Whether the source range `d` holds section index `i`.
pub open spec fn range_holds(d: Option<(u32, u32)>, i: int) -> bool {
    match d {
        Some((first, count)) => first <= i < first + count,
        None => false,
    }
}

/// The text that UTF-8 bytes decode to; `None` where they are not valid UTF-8.
pub uninterp spec fn utf8_text(b: Seq<u8>) -> Option<Seq<char>>;

/// Relies on `String::from_utf8`: it decodes valid UTF-8 and refuses anything else.
#[verifier::external_body]
fn decode_utf8(b: &[u8]) -> (r: Option<String>)
    ensures
        r is Some <==> utf8_text(b@) is Some,
        r matches Some(t) ==> utf8_text(b@) == Some(t@),
{
    String::from_utf8(b.to_vec()).ok()
}

/// The title bytes of the header in `[start, end)`: the title's offset and
/// length are read from the header; `None` where the title leaves the section.
pub open spec fn title_bytes(s: Seq<u8>, start: int, end: int) -> Option<Seq<u8>> {
    let offset = u32_at(s, start + TITLE_OFFSET_POS) as int;
    let length = u32_at(s, start + TITLE_LENGTH_POS) as int;
    if offset + length <= end - start {
        Some(s.subrange(start + offset, start + offset + length))
    } else {
        None
    }
}

/// The title of the header in `[start, end)`, where it lies in the section
/// and is valid text.
pub open spec fn title_of(s: Seq<u8>, start: int, end: int) -> Option<Seq<char>> {
    match title_bytes(s, start, end) {
        Some(b) => utf8_text(b),
        None => None,
    }
}

/// Whether the descriptor of the header at `hpos` is the "no source" sentinel.
pub open spec fn descriptor_cleared(s: Seq<u8>, hpos: int) -> bool {
    u32_at(s, hpos + SOURCE_START_POS) == NO_SOURCE && u32_at(s, hpos + SOURCE_COUNT_POS) == 0
}

/// One section: its index and its byte range `[start, end)` in the container.
/// It is computed from the section table when needed and not kept.
#[derive(Debug, Clone, Copy, PartialEq, Eq, Structural)]
pub struct Section {
    pub index: u32,
    pub start: usize,
    pub end: usize,
}

impl Section {
    /// The section lies within `data`.
    pub open spec fn within(self, data: Seq<u8>) -> bool {
        self.start <= self.end <= data.len()
    }

    pub open spec fn len(self) -> int {
        self.end - self.start
    }

    /// The section is a header record that holds every header field.
    pub open spec fn is_full_header(self, data: Seq<u8>) -> bool {
        &&& self.within(data)
        &&& is_header_range(data, self.start as int, self.end as int)
        &&& self.len() >= HEADER_MIN_LEN
    }

    /// `length` bytes at `offset` within the section.
    pub fn read_bytes<'a>(&self, data: &'a [u8], offset: usize, length: usize) -> (r: &'a [u8])
        requires
            self.within(data@),
            offset + length <= self.len(),
        ensures
            r@ == data@.subrange(self.start + offset, self.start + offset + length),
    {
        vstd::slice::slice_subrange(data, self.start + offset, self.start + offset + length)
    }

    /// The big-endian 32-bit field at `offset` within the section.
    pub fn read_long(&self, data: &[u8], offset: usize) -> (r: u32)
        requires
            self.within(data@),
            offset + 4 <= self.len(),
        ensures
            r == u32_at(data@, self.start + offset),
    {
        read_u32_at(data, self.start + offset)
    }

    /// Whether the section's content is exactly the boundary sentinel.
    pub fn is_boundary(&self, data: &[u8]) -> (r: bool)
        requires
            self.within(data@),
        ensures
            r == is_boundary_range(data@, self.start as int, self.end as int),
    {
        let magic: Vec<u8> = vec![0x42u8, 0x4fu8, 0x55u8, 0x4eu8, 0x44u8, 0x41u8, 0x52u8, 0x59u8];
        assert(magic@ == boundary_magic());
        if self.end - self.start != 8 {
            return false;
        }
        bytes_equal(data, self.start, magic.as_slice())
    }

    /// Whether the section carries the header magic.
    pub fn is_mobi(&self, data: &[u8]) -> (r: bool)
        requires
            self.within(data@),
        ensures
            r == is_header_range(data@, self.start as int, self.end as int),
    {
        reveal(is_header_range);
        if self.end - self.start < HEADER_MAGIC_POS + 4 {
            return false;
        }
        let magic: Vec<u8> = vec![0x4du8, 0x4fu8, 0x42u8, 0x49u8];
        assert(magic@ == header_magic());
        bytes_equal(data, self.start + HEADER_MAGIC_POS, magic.as_slice())
    }

    /// The header format version.
    pub fn get_version(&self, data: &[u8]) -> (r: u32)
        requires
            self.is_full_header(data@),
        ensures
            r == u32_at(data@, self.start + VERSION_POS),
    {
        self.read_long(data, VERSION_POS)
    }

    /// The document's text encoding id.
    pub fn get_encoding(&self, data: &[u8]) -> (r: u32)
        requires
            self.is_full_header(data@),
        ensures
            r == u32_at(data@, self.start + ENCODING_POS),
    {
        self.read_long(data, ENCODING_POS)
    }

    /// The document title, where it lies within the section and is valid text.
    pub fn get_full_name(&self, data: &[u8]) -> (r: Result<String, FormatError>)
        requires
            self.is_full_header(data@),
        ensures
            r is Ok <==> title_of(data@, self.start as int, self.end as int) is Some,
            r matches Ok(t) ==> title_of(data@, self.start as int, self.end as int) == Some(t@),
            r matches Err(e) ==> e == FormatError::BadTitle,
    {
        let offset = self.read_long(data, TITLE_OFFSET_POS) as usize;
        let length = self.read_long(data, TITLE_LENGTH_POS) as usize;
        let avail = self.end - self.start;
        if offset > avail || length > avail - offset {
            return Err(FormatError::BadTitle);
        }
        let bytes = self.read_bytes(data, offset, length);
        match decode_utf8(bytes) {
            Some(t) => Ok(t),
            None => Err(FormatError::BadTitle),
        }
    }

    /// The source range this header names, as (first index, count), or `None`
    /// where its first index is the sentinel or its count is zero.
    pub fn get_source_section_indice(&self, data: &[u8]) -> (r: Option<(u32, u32)>)
        requires
            self.is_full_header(data@),
        ensures
            r == descriptor_of(data@, self.start as int),
    {
        let first = self.read_long(data, SOURCE_START_POS);
        let count = self.read_long(data, SOURCE_COUNT_POS);
        if first == NO_SOURCE || count == 0 {
            None
        } else {
            Some((first, count))
        }
    }
}

/// Whether `data` holds the bytes of `lit` at position `p`.
pub fn bytes_equal(data: &[u8], p: usize, lit: &[u8]) -> (r: bool)
    requires
        p + lit@.len() <= data@.len(),
    ensures
        r == (data@.subrange(p as int, p + lit@.len()) == lit@),
{
    let dlen = data.len();
    let mut k: usize = 0;
    while k < lit.len()
        invariant
            dlen == data@.len(),
            p + lit@.len() <= data@.len(),
            k <= lit@.len(),
            forall|m: int| 0 <= m < k ==> data@[p + m] == lit@[m],
        decreases lit@.len() - k,
    {
        if data[p + k] != lit[k] {
            assert(data@.subrange(p as int, p + lit@.len())[k as int] != lit@[k as int]);
            return false;
        }
        k += 1;
    }
    assert(data@.subrange(p as int, p + lit@.len()) =~= lit@);
    true
}

} // verus!
