//! The ELF64 loader: what a program image asks to be mapped where.
//!
//! The loader reads and checks the image and plans the load; mapping the
//! pages and copying the bytes follows the plan elsewhere.

use vstd::prelude::*;
use crate::bytes::{le16_at, le32_at, le64_at, read_le16, read_le32, read_le64};
use crate::mem::vmm::{canonical, is_canonical, user_flags, user_page_flags};

verus! {

/// Number of bytes of the file header.
pub const HEADER_SIZE: usize = 64;

/// Number of bytes of a program header.
pub const PROGRAM_HEADER_SIZE: usize = 56;

/// Type of a program header whose segment is loaded.
pub const PT_LOAD: u32 = 1;

/// Flag of a segment that holds code.
pub const PF_X: u32 = 1;

pub const PF_W: u32 = 2;

pub const PF_R: u32 = 4;

/// The file header, field by field.
#[derive(Debug, Clone, Copy)]
pub struct Elf64Header {
    pub magic: [u8; 4],
    pub class: u8,
    pub endian: u8,
    pub version: u8,
    pub os_abi: u8,
    pub elf_type: u16,
    pub machine: u16,
    pub version2: u32,
    pub entry: u64,
    pub phoff: u64,
    pub shoff: u64,
    pub flags: u32,
    pub ehsize: u16,
    pub phentsize: u16,
    pub phnum: u16,
    pub shentsize: u16,
    pub shnum: u16,
    pub shstrndx: u16,
}

/// A program header, field by field.
#[derive(Debug, Clone, Copy, PartialEq, Eq, Structural)]
pub struct Elf64ProgramHeader {
    pub seg_type: u32,
    pub flags: u32,
    pub offset: u64,
    pub vaddr: u64,
    pub paddr: u64,
    pub filesz: u64,
    pub memsz: u64,
    pub align: u64,
}

/// What is done for one loaded segment.
#[derive(Debug, Clone, Copy, PartialEq, Eq, Structural)]
pub struct LoadSegment {
    /// Address of the first page of the segment.
    pub start_page: u64,
    /// Address just past the last page of the segment.
    pub end_page: u64,
    /// Page-table flags of the pages that are not mapped yet.
    pub flags: u64,
    /// Address at which the bytes of the image go.
    pub vaddr: u64,
    /// Where those bytes begin in the image.
    pub file_start: usize,
    /// Where those bytes end in the image.
    pub file_end: usize,
    /// Address from which memory is filled with zero bytes.
    pub zero_start: u64,
    /// Number of zero bytes.
    pub zero_len: u64,
}

/// A program that was planned to be loaded.
pub struct LoadedElf {
    /// Address at which the program begins to run.
    pub entry: u64,
    /// The loaded segments, in the order of their program headers.
    pub segments: Vec<LoadSegment>,
}

impl Elf64Header {
    /// Whether the fields are those found at their offsets in `data`.
    pub open spec fn decodes(&self, data: Seq<u8>) -> bool {
        &&& self.magic@ == data.subrange(0, 4)
        &&& self.class == data[4]
        &&& self.endian == data[5]
        &&& self.version == data[6]
        &&& self.os_abi == data[7]
        &&& self.elf_type == le16_at(data, 16)
        &&& self.machine == le16_at(data, 18)
        &&& self.version2 == le32_at(data, 20)
        &&& self.entry == le64_at(data, 24)
        &&& self.phoff == le64_at(data, 32)
        &&& self.shoff == le64_at(data, 40)
        &&& self.flags == le32_at(data, 48)
        &&& self.ehsize == le16_at(data, 52)
        &&& self.phentsize == le16_at(data, 54)
        &&& self.phnum == le16_at(data, 56)
        &&& self.shentsize == le16_at(data, 58)
        &&& self.shnum == le16_at(data, 60)
        &&& self.shstrndx == le16_at(data, 62)
    }
}

/// Why the header of an image is refused, if it is: the image is shorter
/// than a header, does not begin with the ELF magic, is not of class 64,
/// or is not for the amd64 machine.
pub open spec fn header_fault(data: Seq<u8>) -> Option<Seq<char>> {
    if data.len() < 64 {
        Some("elf too small"@)
    } else if !(data[0] == 0x7f && data[1] == 69 && data[2] == 76 && data[3] == 70) {
        Some("invalid elf magic"@)
    } else if data[4] != 2 {
        Some("not an elf64"@)
    } else if le16_at(data, 18) != 0x3E {
        Some("not an amd64 elf"@)
    } else {
        None
    }
}

/// Reads and checks the file header.
pub fn parse_header(data: &[u8]) -> (r: Result<Elf64Header, &'static str>)
    ensures
        match header_fault(data@) {
            Some(msg) => r matches Err(e) && e@ == msg,
            None => r matches Ok(h) && h.decodes(data@),
        },
{
    if data.len() < HEADER_SIZE {
        return Err("elf too small");
    }
    if !(data[0] == 0x7f && data[1] == 69 && data[2] == 76 && data[3] == 70) {
        return Err("invalid elf magic");
    }
    if data[4] != 2 {
        return Err("not an elf64");
    }
    let machine = read_le16(data, 18);
    if machine != 0x3E {
        return Err("not an amd64 elf");
    }
    let magic: [u8; 4] = [data[0], data[1], data[2], data[3]];
    assert(magic@ =~= data@.subrange(0, 4));
    Ok(
        Elf64Header {
            magic,
            class: data[4],
            endian: data[5],
            version: data[6],
            os_abi: data[7],
            elf_type: read_le16(data, 16),
            machine,
            version2: read_le32(data, 20),
            entry: read_le64(data, 24),
            phoff: read_le64(data, 32),
            shoff: read_le64(data, 40),
            flags: read_le32(data, 48),
            ehsize: read_le16(data, 52),
            phentsize: read_le16(data, 54),
            phnum: read_le16(data, 56),
            shentsize: read_le16(data, 58),
            shnum: read_le16(data, 60),
            shstrndx: read_le16(data, 62),
        },
    )
}

/// Where program header `index` begins in an image whose table begins at
/// `phoff` with entries of `phentsize` bytes.
pub open spec fn ph_start(phoff: u64, phentsize: u16, index: int) -> int {
    phoff as int + index * (phentsize as int)
}

/// Whether program header `index` lies inside an image of `len` bytes:
/// both the entry as the header sizes it and the 56 bytes that are read.
pub open spec fn ph_inside(phoff: u64, phentsize: u16, index: int, len: int) -> bool {
    ph_start(phoff, phentsize, index) + phentsize as int <= len && ph_start(
        phoff,
        phentsize,
        index,
    ) + 56 <= len
}

/// The program header found at `at` in `data`.
pub open spec fn ph_at(data: Seq<u8>, at: int) -> Elf64ProgramHeader {
    Elf64ProgramHeader {
        seg_type: le32_at(data, at),
        flags: le32_at(data, at + 4),
        offset: le64_at(data, at + 8),
        vaddr: le64_at(data, at + 16),
        paddr: le64_at(data, at + 24),
        filesz: le64_at(data, at + 32),
        memsz: le64_at(data, at + 40),
        align: le64_at(data, at + 48),
    }
}

/// Reads program header `index`.
pub fn parse_program_header(data: &[u8], phoff: u64, phentsize: u16, index: u16) -> (r: Result<
    Elf64ProgramHeader,
    &'static str,
>)
    ensures
        ph_inside(phoff, phentsize, index as int, data@.len() as int) ==> r == Ok::<
            Elf64ProgramHeader,
            &'static str,
        >(ph_at(data@, ph_start(phoff, phentsize, index as int))),
        !ph_inside(phoff, phentsize, index as int, data@.len() as int) ==> (r matches Err(e) && e@
            == "program header out of bounds"@),
{
    let len: usize = data.len();
    assert((index as int) * (phentsize as int) <= 65535 * 65535) by (nonlinear_arith)
        requires
            0 <= index <= 65535,
            0 <= phentsize <= 65535,
    ;
    let step: u64 = (index as u64) * (phentsize as u64);
    if phoff > u64::MAX - step {
        return Err("program header out of bounds");
    }
    let start: u64 = phoff + step;
    if start > len as u64 || (len as u64) - start < phentsize as u64 || (len as u64) - start < 56 {
        return Err("program header out of bounds");
    }
    let at: usize = start as usize;
    Ok(
        Elf64ProgramHeader {
            seg_type: read_le32(data, at),
            flags: read_le32(data, at + 4),
            offset: read_le64(data, at + 8),
            vaddr: read_le64(data, at + 16),
            paddr: read_le64(data, at + 24),
            filesz: read_le64(data, at + 32),
            memsz: read_le64(data, at + 40),
            align: read_le64(data, at + 48),
        },
    )
}

/// The page that holds `addr`.
pub open spec fn page_floor(addr: int) -> int {
    addr - addr % 4096
}

/// What is done for a loaded segment, or why the segment is refused: its
/// addresses leave the 64-bit range, one of them is not canonical, or its
/// bytes do not lie inside an image of `len` bytes.
pub open spec fn segment_plan(ph: Elf64ProgramHeader, len: int) -> Result<LoadSegment, Seq<char>> {
    let end_addr = ph.vaddr as int + ph.memsz as int;
    let end_page = page_floor(end_addr + 4095);
    let file_end = ph.offset as int + ph.filesz as int;
    if end_addr + 4095 > u64::MAX as int || ph.vaddr as int + ph.filesz as int > u64::MAX as int {
        Err("segment address out of range"@)
    } else if !is_canonical(page_floor(ph.vaddr as int) as u64) || !is_canonical(ph.vaddr)
        || !is_canonical((ph.vaddr as int + ph.filesz as int) as u64) || (end_page > page_floor(
        ph.vaddr as int,
    ) && !is_canonical((end_page - 4096) as u64)) {
        Err("segment address is not canonical"@)
    } else if file_end > len {
        Err("segment data out of bounds"@)
    } else {
        Ok(
            LoadSegment {
                start_page: page_floor(ph.vaddr as int) as u64,
                end_page: end_page as u64,
                flags: user_flags(ph.flags & PF_X != 0),
                vaddr: ph.vaddr,
                file_start: ph.offset as usize,
                file_end: file_end as usize,
                zero_start: (ph.vaddr as int + ph.filesz as int) as u64,
                zero_len: if ph.memsz > ph.filesz {
                    (ph.memsz - ph.filesz) as u64
                } else {
                    0
                },
            },
        )
    }
}

/// Plans the load of one segment.
pub fn plan_segment(ph: &Elf64ProgramHeader, len: usize) -> (r: Result<LoadSegment, &'static str>)
    ensures
        match segment_plan(*ph, len as int) {
            Ok(s) => r == Ok::<LoadSegment, &'static str>(s),
            Err(msg) => r matches Err(e) && e@ == msg,
        },
{
    let end_addr = match ph.vaddr.checked_add(ph.memsz) {
        Some(v) => v,
        None => {
            return Err("segment address out of range");
        },
    };
    if end_addr > u64::MAX - 4095 {
        return Err("segment address out of range");
    }
    let file_top = match ph.vaddr.checked_add(ph.filesz) {
        Some(v) => v,
        None => {
            return Err("segment address out of range");
        },
    };
    let start_page: u64 = ph.vaddr - ph.vaddr % 4096;
    let end_page: u64 = (end_addr + 4095) - (end_addr + 4095) % 4096;
    if !canonical(start_page) || !canonical(ph.vaddr) || !canonical(file_top) || (end_page
        > start_page && !canonical(end_page - 4096)) {
        return Err("segment address is not canonical");
    }
    let file_end = match ph.offset.checked_add(ph.filesz) {
        Some(v) => v,
        None => {
            return Err("segment data out of bounds");
        },
    };
    if file_end > len as u64 {
        return Err("segment data out of bounds");
    }
    Ok(
        LoadSegment {
            start_page,
            end_page,
            flags: user_page_flags(ph.flags & PF_X != 0),
            vaddr: ph.vaddr,
            file_start: ph.offset as usize,
            file_end: file_end as usize,
            zero_start: file_top,
            zero_len: if ph.memsz > ph.filesz {
                ph.memsz - ph.filesz
            } else {
                0
            },
        },
    )
}

/// The plans of the segments of the first `count` program headers, or the
/// first fault met on the way.
pub open spec fn segments_plan(data: Seq<u8>, phoff: u64, phentsize: u16, count: int) -> Result<
    Seq<LoadSegment>,
    Seq<char>,
>
    decreases count,
{
    if count <= 0 {
        Ok(Seq::empty())
    } else {
        match segments_plan(data, phoff, phentsize, count - 1) {
            Err(msg) => Err(msg),
            Ok(done) => if !ph_inside(phoff, phentsize, count - 1, data.len() as int) {
                Err("program header out of bounds"@)
            } else {
                let ph = ph_at(data, ph_start(phoff, phentsize, count - 1));
                if ph.seg_type != PT_LOAD {
                    Ok(done)
                } else {
                    match segment_plan(ph, data.len() as int) {
                        Ok(s) => Ok(done.push(s)),
                        Err(msg) => Err(msg),
                    }
                }
            },
        }
    }
}

/// The plan of the load of an image, or why the image is refused.
pub open spec fn load_plan(data: Seq<u8>) -> Result<(u64, Seq<LoadSegment>), Seq<char>> {
    match header_fault(data) {
        Some(msg) => Err(msg),
        None => match segments_plan(
            data,
            le64_at(data, 32),
            le16_at(data, 54),
            le16_at(data, 56) as int,
        ) {
            Ok(s) => Ok((le64_at(data, 24), s)),
            Err(msg) => Err(msg),
        },
    }
}

/// Checks the image `elf_data` and plans its load: the entry address, and
/// for every segment that is loaded the pages to map, the bytes to copy
/// and the memory to fill with zero bytes.
pub fn load(elf_data: &[u8]) -> (r: Result<LoadedElf, &'static str>)
    ensures
        match load_plan(elf_data@) {
            Ok(plan) => r matches Ok(l) && l.entry == plan.0 && l.segments@ == plan.1,
            Err(msg) => r matches Err(e) && e@ == msg,
        },
{
    let header = match parse_header(elf_data) {
        Ok(h) => h,
        Err(e) => {
            return Err(e);
        },
    };
    let mut segments: Vec<LoadSegment> = Vec::new();
    let mut i: u16 = 0;
    while i < header.phnum
        invariant
            i <= header.phnum,
            header.decodes(elf_data@),
            header_fault(elf_data@) is None,
            segments_plan(elf_data@, header.phoff, header.phentsize, i as int) == Ok::<
                Seq<LoadSegment>,
                Seq<char>,
            >(segments@),
        decreases header.phnum - i,
    {
        let ph = match parse_program_header(elf_data, header.phoff, header.phentsize, i) {
            Ok(p) => p,
            Err(e) => {
                proof {
                    lemma_plan_fault(elf_data@, header.phoff, header.phentsize, i + 1, header.phnum as int);
                }
                return Err(e);
            },
        };
        if ph.seg_type == PT_LOAD {
            match plan_segment(&ph, elf_data.len()) {
                Ok(s) => {
                    segments.push(s);
                },
                Err(e) => {
                    proof {
                        lemma_plan_fault(
                            elf_data@,
                            header.phoff,
                            header.phentsize,
                            i + 1,
                            header.phnum as int,
                        );
                    }
                    return Err(e);
                },
            }
        }
        i += 1;
    }
    Ok(LoadedElf { entry: header.entry, segments })
}

/// A fault met among the first program headers is the fault of the whole
/// table.
pub proof fn lemma_plan_fault(data: Seq<u8>, phoff: u64, phentsize: u16, j: int, count: int)
    requires
        0 <= j <= count,
        segments_plan(data, phoff, phentsize, j) is Err,
    ensures
        segments_plan(data, phoff, phentsize, count) == segments_plan(data, phoff, phentsize, j),
    decreases count - j,
{
    if j < count {
        lemma_plan_fault(data, phoff, phentsize, j, count - 1);
    }
}

} // verus!
