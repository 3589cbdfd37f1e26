//! Opening a container: the checks on its layout, and the scan for its
//! header generations.

use vstd::prelude::*;
use crate::bytes::{FormatError, read_u16_at, read_u32_at, u16_at, u32_at};
use crate::mobi::{MobiFile, entry_pos, MAGIC_POS, COUNT_POS, TABLE_POS, ENTRY_SIZE};
use crate::section::{
    Section, bytes_equal, is_boundary_range, is_header_range, title_of, HEADER_MIN_LEN,
};

verus! {

/// The container magic: `BOOKMOBI`.
pub open spec fn container_magic() -> Seq<u8> {
    seq![0x42u8, 0x4fu8, 0x4fu8, 0x4bu8, 0x4du8, 0x4fu8, 0x42u8, 0x49u8]
}

/// Whether `s` carries the container magic.
pub open spec fn has_magic(s: Seq<u8>) -> bool {
    s.len() >= MAGIC_POS + 8 && s.subrange(MAGIC_POS as int, MAGIC_POS + 8) == container_magic()
}

/// The section count stored in `s`.
pub open spec fn section_count(s: Seq<u8>) -> int {
    u16_at(s, COUNT_POS as int) as int
}

/// The table offset of section `i` in `s`.
pub open spec fn table_start(s: Seq<u8>, i: int) -> int {
    u32_at(s, entry_pos(i)) as int
}

/// Where section `i` of `s` starts, for a container of `len` bytes; for
/// `i == n` the container's end.
pub open spec fn sec_start(s: Seq<u8>, len: int, i: int) -> int {
    if i < section_count(s) {
        table_start(s, i)
    } else {
        len
    }
}

/// Section `i`'s table offset is not past section `i + 1`'s.
pub open spec fn ascends_at(s: Seq<u8>, i: int) -> bool {
    table_start(s, i) <= table_start(s, i + 1)
}

/// The section table lies in the first `len` bytes, before the sections,
/// and its offsets ascend up to `len`.
pub open spec fn layout_ok(s: Seq<u8>, len: int) -> bool {
    let n = section_count(s);
    &&& TABLE_POS <= len <= s.len()
    &&& 1 <= n
    &&& entry_pos(n) <= len
    &&& entry_pos(n) <= table_start(s, 0)
    &&& forall|i: int| 0 <= i < n - 1 ==> #[trigger] ascends_at(s, i)
    &&& table_start(s, n - 1) <= len
}

/// Whether section `i` starts a further header generation: it follows a
/// boundary section and carries the header magic.
pub open spec fn starts_generation(s: Seq<u8>, len: int, i: int) -> bool {
    &&& 0 < i < section_count(s)
    &&& is_boundary_range(s, sec_start(s, len, i - 1), sec_start(s, len, i))
    &&& is_header_range(s, sec_start(s, len, i), sec_start(s, len, i + 1))
}

/// Section 0 and the sections up to `i` that start a further header generation, ascending.
pub open spec fn generation_starts(s: Seq<u8>, len: int, i: int) -> Seq<u32>
    decreases i,
{
    if i <= 0 {
        seq![0u32]
    } else {
        generation_starts(s, len, i - 1) + if starts_generation(s, len, i) {
            seq![i as u32]
        } else {
            Seq::<u32>::empty()
        }
    }
}

/// The header generations of the container.
pub open spec fn headers_of(s: Seq<u8>, len: int) -> Seq<u32> {
    generation_starts(s, len, section_count(s) - 1)
}

/// Section `h` carries the header magic and holds every header field.
pub open spec fn header_shape_ok(s: Seq<u8>, len: int, h: int) -> bool {
    &&& is_header_range(s, sec_start(s, len, h), sec_start(s, len, h + 1))
    &&& sec_start(s, len, h + 1) - sec_start(s, len, h) >= HEADER_MIN_LEN
}

/// The title of the header in section `h` lies in the section and is valid text.
pub open spec fn header_title_ok(s: Seq<u8>, len: int, h: int) -> bool {
    title_of(s, sec_start(s, len, h), sec_start(s, len, h + 1)) is Some
}

pub open spec fn headers_shape_ok(s: Seq<u8>, len: int) -> bool {
    forall|k: int|
        0 <= k < headers_of(s, len).len() ==> header_shape_ok(s, len, #[trigger] headers_of(s, len)[k] as int)
}

pub open spec fn headers_title_ok(s: Seq<u8>, len: int) -> bool {
    forall|k: int|
        0 <= k < headers_of(s, len).len() ==> header_title_ok(s, len, #[trigger] headers_of(s, len)[k] as int)
}

/// The first `len` bytes of `s` are a container that can be opened.
pub open spec fn container_valid(s: Seq<u8>, len: int) -> bool {
    &&& has_magic(s)
    &&& layout_ok(s, len)
    &&& headers_shape_ok(s, len)
    &&& headers_title_ok(s, len)
}

/// The header generations found up to `i` start at 0 and ascend, none past `i`.
pub proof fn lemma_generation_starts(s: Seq<u8>, len: int, i: int)
    requires
        0 <= i,
    ensures
        generation_starts(s, len, i).len() >= 1,
        generation_starts(s, len, i)[0] == 0,
        forall|k: int|
            0 <= k < generation_starts(s, len, i).len() ==> #[trigger] generation_starts(s, len, i)[k] <= i,
        forall|k: int, l: int|
            0 <= k < l < generation_starts(s, len, i).len() ==> #[trigger] generation_starts(s, len, i)[k]
                < #[trigger] generation_starts(s, len, i)[l],
    decreases i,
{
    if i > 0 {
        lemma_generation_starts(s, len, i - 1);
    }
}

/// Ascending neighbours make an ascending table.
proof fn lemma_ascending(s: Seq<u8>, n: int, i: int, j: int)
    requires
        forall|k: int| 0 <= k < n - 1 ==> #[trigger] ascends_at(s, k),
        0 <= i <= j < n,
    ensures
        table_start(s, i) <= table_start(s, j),
    decreases j - i,
{
    if i < j {
        lemma_ascending(s, n, i, j - 1);
        assert(ascends_at(s, j - 1));
    }
}

/// Checks the container magic and the section table of the first `length`
/// bytes of `data`, and returns the section count.
#[verifier::rlimit(100)]
fn check_layout(data: &Vec<u8>, length: usize) -> (r: Result<u32, FormatError>)
    ensures
        r is Ok <==> has_magic(data@) && layout_ok(data@, length as int),
        r == Err::<u32, FormatError>(FormatError::BadMagic) <==> !has_magic(data@),
        r == Err::<u32, FormatError>(FormatError::BadLayout) <==> has_magic(data@) && !layout_ok(
            data@,
            length as int,
        ),
        r matches Ok(n) ==> n == section_count(data@),
{
    let ghost s = data@;
    let dlen = data.len();
    if dlen < MAGIC_POS + 8 {
        return Err(FormatError::BadMagic);
    }
    let magic: Vec<u8> = vec![0x42u8, 0x4fu8, 0x4fu8, 0x4bu8, 0x4du8, 0x4fu8, 0x42u8, 0x49u8];
    assert(magic@ == container_magic());
    if !bytes_equal(data.as_slice(), MAGIC_POS, magic.as_slice()) {
        return Err(FormatError::BadMagic);
    }
    if length > dlen || length < TABLE_POS {
        return Err(FormatError::BadLayout);
    }
    let count = read_u16_at(data.as_slice(), COUNT_POS) as u32;
    if count == 0 || TABLE_POS + ENTRY_SIZE * count as usize > length {
        return Err(FormatError::BadLayout);
    }
    let first = read_u32_at(data.as_slice(), TABLE_POS) as usize;
    if first < TABLE_POS + ENTRY_SIZE * count as usize {
        return Err(FormatError::BadLayout);
    }
    let mut i: u32 = 0;
    while i + 1 < count
        invariant
            s == data@,
            has_magic(s),
            dlen == s.len(),
            count == section_count(s),
            1 <= count,
            entry_pos(count as int) <= length <= dlen,
            i < count,
            forall|k: int| 0 <= k < i ==> #[trigger] ascends_at(s, k),
        decreases count - i,
    {
        let a = read_u32_at(data.as_slice(), TABLE_POS + ENTRY_SIZE * i as usize);
        let b = read_u32_at(data.as_slice(), TABLE_POS + ENTRY_SIZE * (i + 1) as usize);
        if a > b {
            assert(!ascends_at(s, i as int));
            return Err(FormatError::BadLayout);
        }
        assert(ascends_at(s, i as int));
        i += 1;
    }
    let last = read_u32_at(data.as_slice(), TABLE_POS + ENTRY_SIZE * (count - 1) as usize);
    if last as usize > length {
        return Err(FormatError::BadLayout);
    }
    Ok(count)
}

impl MobiFile {
    /// The section table read from the buffer is the one that `layout_ok` checks.
    pub open spec fn table_read(self) -> bool {
        self.num_sections == section_count(self.data@)
    }

    /// Section 0 and each section that follows a boundary section and
    /// carries the header magic, ascending.
    fn find_headers(&self) -> (r: Vec<u32>)
        requires
            self.table_ok(),
            self.table_read(),
        ensures
            r@ == headers_of(self.data@, self.length as int),
    {
        let ghost s = self.data@;
        let ghost len = self.length as int;
        let mut found: Vec<u32> = vec![0u32];
        assert(found@ =~= generation_starts(s, len, 0));
        let mut i: u32 = 0;
        while i + 1 < self.num_sections
            invariant
                self.table_ok(),
                self.table_read(),
                s == self.data@,
                len == self.length,
                i < self.num_sections,
                found@ == generation_starts(s, len, i as int),
            decreases self.num_sections - i,
        {
            let sec = self.get_section(i);
            if sec.is_boundary(self.data.as_slice()) {
                let next = self.get_section(i + 1);
                if next.is_mobi(self.data.as_slice()) {
                    found.push(i + 1);
                }
            }
            proof {
                assert(found@ =~= generation_starts(s, len, i + 1));
            }
            i += 1;
        }
        found
    }

    /// Checks that each header generation's section is a full header record.
    fn check_header_shapes(&self) -> (r: bool)
        requires
            self.table_ok(),
            self.table_read(),
            self.mobi_section_indice@ == headers_of(self.data@, self.length as int),
            forall|k: int| 0 <= k < self.nh() ==> #[trigger] self.header(k) < self.n(),
        ensures
            r == headers_shape_ok(self.data@, self.length as int),
    {
        let ghost s = self.data@;
        let ghost len = self.length as int;
        let mut k: usize = 0;
        while k < self.mobi_section_indice.len()
            invariant
                self.table_ok(),
                self.table_read(),
                self.mobi_section_indice@ == headers_of(s, len),
                s == self.data@,
                len == self.length,
                forall|k: int| 0 <= k < self.nh() ==> #[trigger] self.header(k) < self.n(),
                k <= self.nh(),
                forall|k2: int| 0 <= k2 < k ==> header_shape_ok(s, len, #[trigger] headers_of(s, len)[k2] as int),
            decreases self.nh() - k,
        {
            let index = self.mobi_section_indice[k];
            assert(self.header(k as int) == index);
            let sec = self.get_section(index);
            if !sec.is_mobi(self.data.as_slice()) || sec.end - sec.start < HEADER_MIN_LEN {
                assert(!header_shape_ok(s, len, headers_of(s, len)[k as int] as int));
                return false;
            }
            k += 1;
        }
        true
    }

    /// Checks that each header generation's title lies in its section and is valid text.
    fn check_header_titles(&self) -> (r: bool)
        requires
            self.table_ok(),
            self.table_read(),
            self.mobi_section_indice@ == headers_of(self.data@, self.length as int),
            forall|k: int| 0 <= k < self.nh() ==> #[trigger] self.header(k) < self.n(),
            headers_shape_ok(self.data@, self.length as int),
        ensures
            r == headers_title_ok(self.data@, self.length as int),
    {
        let ghost s = self.data@;
        let ghost len = self.length as int;
        let mut k: usize = 0;
        while k < self.mobi_section_indice.len()
            invariant
                self.table_ok(),
                self.table_read(),
                self.mobi_section_indice@ == headers_of(s, len),
                s == self.data@,
                len == self.length,
                forall|k: int| 0 <= k < self.nh() ==> #[trigger] self.header(k) < self.n(),
                headers_shape_ok(s, len),
                k <= self.nh(),
                forall|k2: int| 0 <= k2 < k ==> header_title_ok(s, len, #[trigger] headers_of(s, len)[k2] as int),
            decreases self.nh() - k,
        {
            let index = self.mobi_section_indice[k];
            assert(self.header(k as int) == index);
            assert(header_shape_ok(s, len, headers_of(s, len)[k as int] as int));
            let sec = self.get_section(index);
            if sec.get_full_name(self.data.as_slice()).is_err() {
                return false;
            }
            k += 1;
        }
        true
    }

    /// Opens the first `length` bytes of `data` as a container: checks its
    /// magic, its section table, and each header generation's record and
    /// title. Nothing is changed.
    pub fn new(data: Vec<u8>, length: usize) -> (r: Result<MobiFile, FormatError>)
        ensures
            r is Ok <==> container_valid(data@, length as int),
            (r is Err && r->Err_0 == FormatError::BadMagic) <==> !has_magic(data@),
            (r is Err && r->Err_0 == FormatError::BadLayout) <==> has_magic(data@) && !layout_ok(data@, length as int),
            (r is Err && r->Err_0 == FormatError::BadHeader) <==> has_magic(data@) && layout_ok(data@, length as int)
                && !headers_shape_ok(data@, length as int),
            (r is Err && r->Err_0 == FormatError::BadTitle) <==> has_magic(data@) && layout_ok(data@, length as int)
                && headers_shape_ok(data@, length as int) && !headers_title_ok(data@, length as int),
            r matches Ok(f) ==> {
                &&& f.wf()
                &&& f.data@ == data@
                &&& f.length == length
                &&& f.num_sections == section_count(data@)
                &&& f.mobi_section_indice@ == headers_of(data@, length as int)
            },
    {
        match MobiFile::open(data, length) {
            Ok(f) => Ok(f),
            Err((e, _)) => Err(e),
        }
    }

    /// As `new`, but a buffer that cannot be opened is handed back unchanged
    /// with the error.
    #[verifier::rlimit(100)]
    fn open(data: Vec<u8>, length: usize) -> (r: Result<MobiFile, (FormatError, Vec<u8>)>)
        ensures
            r is Ok <==> container_valid(data@, length as int),
            (r is Err && r->Err_0.0 == FormatError::BadMagic) <==> !has_magic(data@),
            (r is Err && r->Err_0.0 == FormatError::BadLayout) <==> has_magic(data@) && !layout_ok(data@, length as int),
            (r is Err && r->Err_0.0 == FormatError::BadHeader) <==> has_magic(data@) && layout_ok(data@, length as int)
                && !headers_shape_ok(data@, length as int),
            (r is Err && r->Err_0.0 == FormatError::BadTitle) <==> has_magic(data@) && layout_ok(data@, length as int)
                && headers_shape_ok(data@, length as int) && !headers_title_ok(data@, length as int),
            r matches Err((_, d)) ==> d@ == data@,
            r matches Ok(f) ==> {
                &&& f.wf()
                &&& f.data@ == data@
                &&& f.length == length
                &&& f.num_sections == section_count(data@)
                &&& f.mobi_section_indice@ == headers_of(data@, length as int)
            },
    {
        let ghost s = data@;
        let count = match check_layout(&data, length) {
            Ok(n) => n,
            Err(e) => {
                return Err((e, data));
            },
        };
        let mut me = MobiFile { data, length, num_sections: count, mobi_section_indice: Vec::new() };
        proof {
            assert forall|i: int, j: int| 0 <= i <= j < me.n() implies #[trigger] me.offset(i) <= #[trigger] me.offset(j) by {
                lemma_ascending(s, count as int, i, j);
            }
        }
        let headers = me.find_headers();
        me.mobi_section_indice = headers;
        proof {
            assert forall|i: int, j: int| 0 <= i <= j < me.n() implies #[trigger] me.offset(i) <= #[trigger] me.offset(j) by {
                lemma_ascending(s, count as int, i, j);
            }
            lemma_generation_starts(s, length as int, count - 1);
            assert forall|k: int| 0 <= k < me.nh() implies #[trigger] me.header(k) < me.n() by {}
        }
        if !me.check_header_shapes() {
            return Err((FormatError::BadHeader, me.data));
        }
        if !me.check_header_titles() {
            return Err((FormatError::BadTitle, me.data));
        }
        proof {
            assert forall|k: int| 0 <= k < me.nh() implies me.sec_len(#[trigger] me.header(k)) >= HEADER_MIN_LEN
                && is_header_range(me.data@, me.start(me.header(k)), me.start(me.header(k) + 1)) by {
                assert(header_shape_ok(s, length as int, headers_of(s, length as int)[k] as int));
            }
        }
        Ok(me)
    }
}

/// Opens `data` as a container, drops the sections that its header
/// generations name as source, and returns the new length; the caller keeps
/// the first that many bytes. A buffer that cannot be opened is left as it
/// was.
pub fn process_mobi_file(data: &mut Vec<u8>) -> (r: Result<usize, FormatError>)
    ensures
        r is Ok <==> container_valid(old(data)@, old(data)@.len() as int),
        (r is Err && r->Err_0 == FormatError::BadMagic) <==> !has_magic(old(data)@),
        r is Err ==> final(data)@ == old(data)@,
        r matches Ok(n) ==> exists|before: MobiFile, after: MobiFile|
            {
                &&& before.wf()
                &&& before.data@ == old(data)@
                &&& before.length == old(data)@.len()
                &&& before.num_sections == section_count(old(data)@)
                &&& before.mobi_section_indice@ == headers_of(old(data)@, old(data)@.len() as int)
                &&& before.compacts_to(after)
                &&& after.data@ == final(data)@
                &&& after.length == n
            },
{
    let length = data.len();
    let mut buf: Vec<u8> = Vec::new();
    std::mem::swap(data, &mut buf);
    match MobiFile::open(buf, length) {
        Ok(mut file) => {
            let ghost before = file;
            let n = file.remove_sources();
            let ghost after = file;
            std::mem::swap(data, &mut file.data);
            assert(before.compacts_to(after) && after.data@ == data@);
            Ok(n)
        },
        Err((e, mut back)) => {
            std::mem::swap(data, &mut back);
            Err(e)
        },
    }
}

} // verus!
