//! Bounded loader model for the fixed static PE32+ service image format.
use vstd::prelude::*;
use crate::platform_model::Error;
use crate::le::{le16, le32, le64, read16, read32, read64};

verus! {

pub const BASE: u64 = 0x400000;
pub const LIMIT: usize = 128 * 1024;
pub const SECTIONS: usize = 16;

#[derive(Clone, Copy, Debug)]
pub struct Section {
    pub virtual_offset: usize,
    pub memory_size: usize,
    pub file_offset: usize,
    pub file_size: usize,
    pub writable: bool,
    pub executable: bool,
}

pub struct Layout {
    pub entry: u64,
    pub image_size: usize,
    pub header_size: usize,
    pub count: usize,
    pub sections: [Section; 16],
}

pub open spec fn empty_section() -> Section {
    Section { virtual_offset: 0, memory_size: 0, file_offset: 0, file_size: 0, writable: false, executable: false }
}

pub open spec fn section_start(b: Seq<u8>, o: int, optional: int, index: int) -> int {
    o + optional + index * 40
}

pub open spec fn max_int(a: int, b: int) -> int {
    if a >= b { a } else { b }
}

#[verifier::opaque]
pub open spec fn flags_of(b: Seq<u8>, s: int) -> u32 {
    le32(b, s + 36) as u32
}

/// The section record at `index`, with its memory size widened to cover its file bytes.
#[verifier::opaque]
pub open spec fn section_of(b: Seq<u8>, o: int, optional: int, index: int) -> Section {
    let s = section_start(b, o, optional, index);
    let flags = flags_of(b, s);
    Section {
        virtual_offset: le32(b, s + 12) as usize,
        memory_size: max_int(le32(b, s + 8), le32(b, s + 16)) as usize,
        file_offset: le32(b, s + 20) as usize,
        file_size: le32(b, s + 16) as usize,
        writable: flags & 0x8000_0000u32 != 0,
        executable: flags & 0x2000_0000u32 != 0,
    }
}

pub open spec fn page_span(size: int) -> int {
    (size + 4095) / 4096 * 4096
}

pub open spec fn section_refused(sec: Section, flags: u32, image_size: int, header_size: int, len: int) -> bool {
    ||| sec.memory_size == 0
    ||| sec.virtual_offset < 4096
    ||| sec.virtual_offset % 4096 != 0
    ||| sec.virtual_offset + page_span(sec.memory_size as int) > image_size
    ||| sec.file_offset + sec.file_size > len
    ||| (sec.file_size != 0 && sec.file_offset < header_size)
    ||| (sec.writable && sec.executable)
    ||| flags & 0x4000_0000u32 == 0
}

pub open spec fn sections_overlap(a: Section, b: Section) -> bool {
    a.virtual_offset < b.virtual_offset + page_span(b.memory_size as int)
        && b.virtual_offset < a.virtual_offset + page_span(a.memory_size as int)
}

/// Parses the first `n` sections in order; the flag records whether the entry
/// point lies inside an executable section's declared memory.
pub open spec fn sections_spec(b: Seq<u8>, o: int, optional: int, image_size: int, header_size: int, entry: int, n: nat)
    -> Result<(Seq<Section>, bool), Error>
    decreases n,
{
    if n == 0 {
        Ok((Seq::empty(), false))
    } else {
        match sections_spec(b, o, optional, image_size, header_size, entry, (n - 1) as nat) {
            Err(e) => Err(e),
            Ok((secs, found)) => {
                let i = n - 1;
                let sec = section_of(b, o, optional, i);
                let s = section_start(b, o, optional, i);
                if section_refused(sec, flags_of(b, s), image_size, header_size, b.len() as int) {
                    Err(Error::Denied)
                } else if exists|j: int| 0 <= j < secs.len() && sections_overlap(sec, #[trigger] secs[j]) {
                    Err(Error::Denied)
                } else {
                    let start = 0x400000 + sec.virtual_offset;
                    let hit = sec.executable && entry >= start && entry < start + le32(b, s + 8);
                    Ok((secs.push(sec), found || hit))
                }
            },
        }
    }
}

/// Abstract parse result: entry, image size, header size and the sections.
pub struct LayoutView {
    pub entry: u64,
    pub image_size: usize,
    pub header_size: usize,
    pub sections: Seq<Section>,
}

/// Header fields `(o, optional, count, image_size, header_size, entry)` or the header's refusal.
pub open spec fn header_spec(b: Seq<u8>) -> Result<(int, int, int, int, int, int), Error> {
    if b.len() < 512 || b.len() > 2 * 1024 * 1024 || b[0] != 0x4d || b[1] != 0x5a {
        Err(Error::Invalid)
    } else {
        let pe = le32(b, 60);
        if pe > 4096 || pe + 4 > b.len() || b[pe] != 0x50 || b[pe + 1] != 0x45 || b[pe + 2] != 0
            || b[pe + 3] != 0 || pe + 6 > b.len() || le16(b, pe + 4) != 0x8664 || pe + 22 > b.len() {
            Err(Error::Invalid)
        } else {
            let count = le16(b, pe + 6);
            let optional = le16(b, pe + 20);
            let o = pe + 24;
            if count == 0 || count > 16 || optional < 240 || optional > 512 || o + optional + count * 40 > b.len()
                || le16(b, o) != 0x20b || le64(b, o + 24) != 0x400000 || le32(b, o + 32) != 4096
                || le32(b, o + 108) != 16 {
                Err(Error::Invalid)
            } else if le64(b, o + 120) != 0 || le64(b, o + 152) != 0 || le64(b, o + 184) != 0
                || le64(b, o + 216) != 0 {
                Err(Error::Denied)
            } else {
                let image_size = le32(b, o + 56);
                let header_size = le32(b, o + 60);
                let entry = 0x400000 + le32(b, o + 16);
                if image_size == 0 || image_size > 128 * 1024 || image_size % 4096 != 0 || header_size == 0
                    || header_size > b.len() || header_size > 4096 || header_size < o + optional + count * 40 {
                    Err(Error::Invalid)
                } else {
                    Ok((o, optional, count, image_size, header_size, entry))
                }
            }
        }
    }
}

pub open spec fn parse_spec(b: Seq<u8>) -> Result<LayoutView, Error> {
    match header_spec(b) {
        Err(e) => Err(e),
        Ok((o, optional, count, image_size, header_size, entry)) =>
            match sections_spec(b, o, optional, image_size, header_size, entry, count as nat) {
                Err(e) => Err(e),
                Ok((secs, found)) => if !found {
                    Err(Error::Denied)
                } else {
                    Ok(
                        LayoutView {
                            entry: entry as u64,
                            image_size: image_size as usize,
                            header_size: header_size as usize,
                            sections: secs,
                        },
                    )
                },
            },
    }
}

proof fn lemma_sections_len(b: Seq<u8>, o: int, optional: int, image_size: int, header_size: int, entry: int, n: nat)
    ensures
        sections_spec(b, o, optional, image_size, header_size, entry, n) matches Ok((secs, _)) ==> secs.len() == n,
    decreases n,
{
    if n > 0 {
        lemma_sections_len(b, o, optional, image_size, header_size, entry, (n - 1) as nat);
    }
}

proof fn lemma_sections_err_persists(b: Seq<u8>, o: int, optional: int, image_size: int, header_size: int, entry: int, m: nat, n: nat)
    requires
        m <= n,
        sections_spec(b, o, optional, image_size, header_size, entry, m) is Err,
    ensures
        sections_spec(b, o, optional, image_size, header_size, entry, n)
            == sections_spec(b, o, optional, image_size, header_size, entry, m),
    decreases n - m,
{
    if m < n {
        lemma_sections_err_persists(b, o, optional, image_size, header_size, entry, m, (n - 1) as nat);
    }
}

fn u16at(b: &[u8], p: usize) -> (r: Result<u16, Error>)
    ensures
        match r {
            Ok(v) => p + 2 <= b@.len() && v == le16(b@, p as int),
            Err(e) => e == Error::Invalid && p + 2 > b@.len(),
        },
{
    if p > b.len() || b.len() - p < 2 {
        return Err(Error::Invalid);
    }
    Ok(read16(b, p))
}

struct Header {
    o: usize,
    optional: usize,
    count: usize,
    image_size: usize,
    header_size: usize,
    entry: u64,
}

fn parse_header(bytes: &[u8]) -> (r: Result<Header, Error>)
    ensures
        match r {
            Ok(h) => header_spec(bytes@) == Ok::<(int, int, int, int, int, int), Error>(
                (h.o as int, h.optional as int, h.count as int, h.image_size as int, h.header_size as int, h.entry as int))
                && h.o + h.optional + h.count * 40 <= bytes@.len() <= 2 * 1024 * 1024 && 1 <= h.count <= 16
                && h.o <= 4096 + 24 && h.image_size <= 128 * 1024 && h.header_size <= 4096,
            Err(e) => header_spec(bytes@) == Err::<(int, int, int, int, int, int), Error>(e),
        },
{
    if bytes.len() < 512 || bytes.len() > 2 * 1024 * 1024 || bytes[0] != 0x4d || bytes[1] != 0x5a {
        return Err(Error::Invalid);
    }
    let pe = read32(bytes, 60) as usize;
    if pe > 4096 || pe + 4 > bytes.len() || bytes[pe] != 0x50 || bytes[pe + 1] != 0x45 || bytes[pe + 2] != 0
        || bytes[pe + 3] != 0 {
        return Err(Error::Invalid);
    }
    let machine = match u16at(bytes, pe + 4) {
        Ok(v) => v,
        Err(e) => return Err(e),
    };
    if machine != 0x8664 {
        return Err(Error::Invalid);
    }
    let count = match u16at(bytes, pe + 6) {
        Ok(v) => v as usize,
        Err(e) => return Err(e),
    };
    let optional = match u16at(bytes, pe + 20) {
        Ok(v) => v as usize,
        Err(e) => return Err(e),
    };
    let o = pe + 24;
    if count == 0 || count > SECTIONS || optional < 240 || optional > 512 || o + optional + count * 40 > bytes.len()
        || read16(bytes, o) != 0x20b || read64(bytes, o + 24) != BASE || read32(bytes, o + 32) != 4096
        || read32(bytes, o + 108) != 16 {
        return Err(Error::Invalid);
    }
    if read64(bytes, o + 120) != 0 || read64(bytes, o + 152) != 0 || read64(bytes, o + 184) != 0
        || read64(bytes, o + 216) != 0 {
        return Err(Error::Denied);
    }
    let image_size = read32(bytes, o + 56) as usize;
    let header_size = read32(bytes, o + 60) as usize;
    let entry = BASE + read32(bytes, o + 16) as u64;
    if image_size == 0 || image_size > LIMIT || image_size % 4096 != 0 || header_size == 0
        || header_size > bytes.len() || header_size > 4096 || header_size < o + optional + count * 40 {
        return Err(Error::Invalid);
    }
    Ok(Header { o, optional, count, image_size, header_size, entry })
}

fn overlaps_previous(sections: &[Section; 16], index: usize, virtual_offset: u64, span: u64) -> (r: bool)
    requires
        index <= 16,
        virtual_offset < 0x1_0000_0000,
        span < 0x2_0000_0000,
        forall|k: int| 0 <= k < index ==> #[trigger] sections@[k].virtual_offset < 0x1_0000_0000
            && sections@[k].memory_size < 0x1_0000_0000,
    ensures
        r == exists|k: int| 0 <= k < index && ({
            let p = #[trigger] sections@[k];
            virtual_offset < p.virtual_offset + page_span(p.memory_size as int) && p.virtual_offset < virtual_offset + span
        }),
{
    let mut j: usize = 0;
    while j < index
        invariant
            j <= index <= 16,
            virtual_offset < 0x1_0000_0000,
            span < 0x2_0000_0000,
            forall|k: int| 0 <= k < index ==> #[trigger] sections@[k].virtual_offset < 0x1_0000_0000
                && sections@[k].memory_size < 0x1_0000_0000,
            forall|k: int| 0 <= k < j ==> !({
                let p = #[trigger] sections@[k];
                virtual_offset < p.virtual_offset + page_span(p.memory_size as int) && p.virtual_offset < virtual_offset + span
            }),
        decreases index - j,
    {
        let previous = sections[j];
        let end = virtual_offset + span;
        let other_end = previous.virtual_offset as u64 + (previous.memory_size as u64 + 4095) / 4096 * 4096;
        if virtual_offset < other_end && (previous.virtual_offset as u64) < end {
            return true;
        }
        j = j + 1;
    }
    false
}

fn read_section(bytes: &[u8], o: usize, optional: usize, index: usize, image_size: usize, header_size: usize)
    -> (r: (Section, u64, bool))
    requires
        index < 16,
        o + optional + (index + 1) * 40 <= bytes@.len() <= 2 * 1024 * 1024,
    ensures
        r.0 == section_of(bytes@, o as int, optional as int, index as int),
        r.1 as int == le32(bytes@, section_start(bytes@, o as int, optional as int, index as int) + 8),
        r.2 == section_refused(r.0, flags_of(bytes@, section_start(bytes@, o as int, optional as int, index as int)),
            image_size as int, header_size as int, bytes@.len() as int),
        r.0.virtual_offset < 0x1_0000_0000 && r.0.memory_size < 0x1_0000_0000,
{
    let s = o + optional + index * 40;
    proof {
        reveal(section_of);
        reveal(flags_of);
    }
    let raw_memory = read32(bytes, s + 8) as u64;
    let virtual_offset = read32(bytes, s + 12) as u64;
    let file_size = read32(bytes, s + 16) as u64;
    let file_offset = read32(bytes, s + 20) as u64;
    let flags = read32(bytes, s + 36);
    let writable = flags & 0x8000_0000 != 0;
    let executable = flags & 0x2000_0000 != 0;
    let size = if raw_memory >= file_size { raw_memory } else { file_size };
    let span = (size + 4095) / 4096 * 4096;
    let refused = size == 0 || virtual_offset < 4096 || virtual_offset % 4096 != 0
        || virtual_offset + span > image_size as u64 || file_offset + file_size > bytes.len() as u64
        || (file_size != 0 && file_offset < header_size as u64) || (writable && executable)
        || flags & 0x4000_0000 == 0;
    let sec = Section {
        virtual_offset: virtual_offset as usize,
        memory_size: size as usize,
        file_offset: file_offset as usize,
        file_size: file_size as usize,
        writable,
        executable,
    };
    (sec, raw_memory, refused)
}

/// Parses the fixed static service PE: no imports, relocations or TLS, at most
/// sixteen page-aligned, non-overlapping, W^X sections, and an executable entry.
pub fn parse(bytes: &[u8]) -> (r: Result<Layout, Error>)
    ensures
        match r {
            Ok(l) => parse_spec(bytes@) matches Ok(v) && l.entry == v.entry && l.image_size == v.image_size
                && l.header_size == v.header_size && l.count == v.sections.len()
                && l.sections@ == v.sections + Seq::new((16 - v.sections.len()) as nat, |i: int| empty_section()),
            Err(e) => parse_spec(bytes@) == Err::<LayoutView, Error>(e),
        },
{
    let h = match parse_header(bytes) {
        Ok(h) => h,
        Err(e) => return Err(e),
    };
    let o = h.o;
    let optional = h.optional;
    let count = h.count;
    let image_size = h.image_size;
    let header_size = h.header_size;
    let entry = h.entry;
    let empty = Section { virtual_offset: 0, memory_size: 0, file_offset: 0, file_size: 0, writable: false, executable: false };
    let mut layout = Layout { entry, image_size, header_size, count, sections: [empty; 16] };
    let mut entry_executable = false;
    let ghost b = bytes@;
    let ghost io = o as int;
    let ghost iopt = optional as int;
    let ghost iimg = image_size as int;
    let ghost ihdr = header_size as int;
    let ghost ient = entry as int;
    proof {
        assert(layout.sections@.subrange(0, 0) =~= Seq::<Section>::empty());
    }
    let mut index: usize = 0;
    while index < count
        invariant
            b == bytes@,
            b.len() <= 2 * 1024 * 1024,
            1 <= count <= 16,
            index <= count,
            o + optional + count * 40 <= b.len(),
            io == o && iopt == optional && iimg == image_size && ihdr == header_size && ient == entry,
            header_spec(b) == Ok::<(int, int, int, int, int, int), Error>((io, iopt, count as int, iimg, ihdr, ient)),
            layout.entry == entry && layout.image_size == image_size && layout.header_size == header_size
                && layout.count == count,
            sections_spec(b, io, iopt, iimg, ihdr, ient, index as nat)
                == Ok::<(Seq<Section>, bool), Error>((layout.sections@.subrange(0, index as int), entry_executable)),
            forall|k: int| index <= k < 16 ==> #[trigger] layout.sections@[k] == empty_section(),
            forall|k: int| 0 <= k < index ==> #[trigger] layout.sections@[k].virtual_offset < 0x1_0000_0000
                && layout.sections@[k].memory_size < 0x1_0000_0000,
        decreases count - index,
    {
        let (sec_value, raw_memory, refused) = read_section(bytes, o, optional, index, image_size, header_size);
        let virtual_offset = sec_value.virtual_offset as u64;
        let span = (sec_value.memory_size as u64 + 4095) / 4096 * 4096;
        let ghost sec = section_of(b, io, iopt, index as int);
        let ghost secs = layout.sections@.subrange(0, index as int);
        proof {
            lemma_sections_len(b, io, iopt, iimg, ihdr, ient, index as nat);
        }
        if refused {
            proof {
                lemma_sections_err_persists(b, io, iopt, iimg, ihdr, ient, (index + 1) as nat, count as nat);
            }
            return Err(Error::Denied);
        }
        if overlaps_previous(&layout.sections, index, virtual_offset, span) {
            proof {
                let k = choose|k: int| 0 <= k < index && ({
                    let p = #[trigger] layout.sections@[k];
                    virtual_offset < p.virtual_offset + page_span(p.memory_size as int) && p.virtual_offset < virtual_offset + span
                });
                assert(secs[k] == layout.sections@[k]);
                assert(sections_overlap(sec, secs[k]));
                assert(sections_spec(b, io, iopt, iimg, ihdr, ient, (index + 1) as nat)
                    == Err::<(Seq<Section>, bool), Error>(Error::Denied));
                lemma_sections_err_persists(b, io, iopt, iimg, ihdr, ient, (index + 1) as nat, count as nat);
            }
            return Err(Error::Denied);
        }
        proof {
            assert forall|k: int| 0 <= k < secs.len() implies !sections_overlap(sec, #[trigger] secs[k]) by {
                assert(secs[k] == layout.sections@[k]);
            }
        }
        let start = BASE + virtual_offset;
        if sec_value.executable && entry >= start && entry < start + raw_memory {
            entry_executable = true;
        }
        layout.sections[index] = sec_value;
        proof {
            assert(layout.sections@[index as int] == sec);
            assert(layout.sections@.subrange(0, index + 1) =~= secs.push(sec));
        }
        index = index + 1;
    }
    if !entry_executable {
        return Err(Error::Denied);
    }
    proof {
        assert(layout.sections@ =~= layout.sections@.subrange(0, count as int)
            + Seq::new((16 - count) as nat, |i: int| empty_section()));
    }
    Ok(layout)
}

/// A section the loader may map: nonempty, page aligned above the first
/// page, inside the image, and never both writable and executable.
pub open spec fn section_sound(sec: Section, image_size: int) -> bool {
    &&& sec.memory_size > 0
    &&& sec.virtual_offset >= 4096
    &&& sec.virtual_offset % 4096 == 0
    &&& sec.virtual_offset + page_span(sec.memory_size as int) <= image_size
    &&& !(sec.writable && sec.executable)
}

proof fn lemma_sections_sound(b: Seq<u8>, o: int, optional: int, image_size: int, header_size: int, entry: int, n: nat)
    ensures
        sections_spec(b, o, optional, image_size, header_size, entry, n) matches Ok((secs, _)) ==> {
            &&& forall|i: int| 0 <= i < secs.len() ==> section_sound(#[trigger] secs[i], image_size)
            &&& forall|i: int, j: int| 0 <= i < j < secs.len() ==> !sections_overlap(#[trigger] secs[i], #[trigger] secs[j])
        },
    decreases n,
{
    if n > 0 {
        lemma_sections_sound(b, o, optional, image_size, header_size, entry, (n - 1) as nat);
        let prev = sections_spec(b, o, optional, image_size, header_size, entry, (n - 1) as nat);
        if sections_spec(b, o, optional, image_size, header_size, entry, n) is Ok {
            let secs = prev->Ok_0.0;
            let sec = section_of(b, o, optional, n - 1);
            let all = secs.push(sec);
            assert forall|i: int, j: int| 0 <= i < j < all.len() implies !sections_overlap(
                #[trigger] all[i],
                #[trigger] all[j],
            ) by {
                if j == secs.len() {
                    assert(all[i] == secs[i]);
                    assert(!sections_overlap(sec, secs[i]));
                } else {
                    assert(all[i] == secs[i] && all[j] == secs[j]);
                }
            }
            assert forall|i: int| 0 <= i < all.len() implies section_sound(#[trigger] all[i], image_size) by {
                if i < secs.len() {
                    assert(all[i] == secs[i]);
                }
            }
        }
    }
}

/// Law: a parsed image is W^X with disjoint sections: every section is
/// nonempty, page aligned above the first page, inside the image and never
/// both writable and executable, and no two sections share a page.
pub proof fn law_parsed_sections_sound(b: Seq<u8>)
    requires
        parse_spec(b) is Ok,
    ensures
        ({
            let l = parse_spec(b)->Ok_0;
            &&& forall|i: int| 0 <= i < l.sections.len() ==> section_sound(#[trigger] l.sections[i], l.image_size as int)
            &&& forall|i: int, j: int|
                0 <= i < j < l.sections.len() ==> !sections_overlap(#[trigger] l.sections[i], #[trigger] l.sections[j])
        }),
{
    let (o, optional, count, image_size, header_size, entry) = header_spec(b)->Ok_0;
    lemma_sections_sound(b, o, optional, image_size, header_size, entry, count as nat);
}

} // verus!
