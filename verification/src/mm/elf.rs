//! Reading the headers of a 64-bit little-endian ELF image.

use vstd::prelude::*;
use vstd::bytes::{spec_u32_from_le_bytes, spec_u64_from_le_bytes, u32_from_le_bytes, u64_from_le_bytes};
use vstd::slice::slice_subrange;

verus! {

/// Size of the file header of a 64-bit image.
pub const ELF_HEADER_SIZE: usize = 64;

/// Size of one program header of a 64-bit image.
pub const PROGRAM_HEADER_SIZE: usize = 56;

/// The kind of a program header that describes a segment to load.
pub const PT_LOAD: u32 = 1;

/// Segment flag: the segment may be executed.
pub const PF_X: u32 = 1;

/// Segment flag: the segment may be written.
pub const PF_W: u32 = 2;

/// Segment flag: the segment may be read.
pub const PF_R: u32 = 4;

/// What the file header says that the loader needs: where execution starts
/// and where the program headers are.
#[derive(Clone, Copy, Debug, PartialEq, Eq, Structural)]
pub struct ElfHeader {
    pub entry: u64,
    pub ph_offset: u64,
    pub ph_entry_size: u16,
    pub ph_count: u16,
}

/// One program header: a segment of the image.
#[derive(Clone, Copy, Debug, PartialEq, Eq, Structural)]
pub struct ProgramHeader {
    pub kind: u32,
    pub flags: u32,
    /// Where the bytes of the segment start in the image.
    pub offset: u64,
    /// The virtual address of the first byte of the segment.
    pub vaddr: u64,
    /// The number of bytes of the segment that the image holds.
    pub file_size: u64,
    /// The number of bytes of the segment in memory; those beyond
    /// `file_size` are zero.
    pub mem_size: u64,
}

/// The 16-bit little-endian number at offset `off` of `data`.
pub open spec fn le16(data: Seq<u8>, off: int) -> u16 {
    (data[off] + data[off + 1] * 256) as u16
}

/// The 32-bit little-endian number at offset `off` of `data`.
pub open spec fn le32(data: Seq<u8>, off: int) -> u32 {
    spec_u32_from_le_bytes(data.subrange(off, off + 4))
}

/// The 64-bit little-endian number at offset `off` of `data`.
pub open spec fn le64(data: Seq<u8>, off: int) -> u64 {
    spec_u64_from_le_bytes(data.subrange(off, off + 8))
}

/// Whether `data` starts with a file header: it is long enough and begins
/// with the four magic bytes.
pub open spec fn has_header(data: Seq<u8>) -> bool {
    data.len() >= ELF_HEADER_SIZE && data[0] == 0x7f && data[1] == 0x45 && data[2] == 0x4c
        && data[3] == 0x46
}

/// The file header of `data`.
pub open spec fn spec_header(data: Seq<u8>) -> ElfHeader {
    ElfHeader {
        entry: le64(data, 24),
        ph_offset: le64(data, 32),
        ph_entry_size: le16(data, 54),
        ph_count: le16(data, 56),
    }
}

/// Where the `i`-th program header starts in the image.
pub open spec fn ph_start(header: ElfHeader, i: int) -> int {
    header.ph_offset + i * header.ph_entry_size
}

/// Whether the `i`-th program header lies within `data`.
pub open spec fn has_program_header(data: Seq<u8>, header: ElfHeader, i: int) -> bool {
    0 <= i < header.ph_count && header.ph_entry_size >= PROGRAM_HEADER_SIZE && ph_start(header, i)
        + PROGRAM_HEADER_SIZE <= data.len()
}

/// The `i`-th program header of `data`.
pub open spec fn spec_program_header(data: Seq<u8>, header: ElfHeader, i: int) -> ProgramHeader {
    let at = ph_start(header, i);
    ProgramHeader {
        kind: le32(data, at),
        flags: le32(data, at + 4),
        offset: le64(data, at + 8),
        vaddr: le64(data, at + 16),
        file_size: le64(data, at + 32),
        mem_size: le64(data, at + 40),
    }
}

/// Reads the 16-bit little-endian number at offset `off`.
pub fn read_u16(data: &[u8], off: usize) -> (r: u16)
    requires
        off + 2 <= data@.len(),
    ensures
        r == le16(data@, off as int),
{
    data[off] as u16 + (data[off + 1] as u16) * 256
}

/// Reads the 32-bit little-endian number at offset `off`.
pub fn read_u32(data: &[u8], off: usize) -> (r: u32)
    requires
        off + 4 <= data@.len(),
    ensures
        r == le32(data@, off as int),
{
    let n: usize = data.len();
    u32_from_le_bytes(slice_subrange(data, off, off + 4))
}

/// Reads the 64-bit little-endian number at offset `off`.
pub fn read_u64(data: &[u8], off: usize) -> (r: u64)
    requires
        off + 8 <= data@.len(),
    ensures
        r == le64(data@, off as int),
{
    let n: usize = data.len();
    u64_from_le_bytes(slice_subrange(data, off, off + 8))
}

/// Reads the file header, if `data` starts with one.
pub fn parse_header(data: &[u8]) -> (r: Option<ElfHeader>)
    ensures
        r is Some <==> has_header(data@),
        r is Some ==> r.unwrap() == spec_header(data@),
{
    if data.len() < ELF_HEADER_SIZE {
        return None;
    }
    if data[0] != 0x7f || data[1] != 0x45 || data[2] != 0x4c || data[3] != 0x46 {
        return None;
    }
    Some(
        ElfHeader {
            entry: read_u64(data, 24),
            ph_offset: read_u64(data, 32),
            ph_entry_size: read_u16(data, 54),
            ph_count: read_u16(data, 56),
        },
    )
}

/// Reads the `i`-th program header, if it lies within `data`.
pub fn program_header(data: &[u8], header: &ElfHeader, i: u16) -> (r: Option<ProgramHeader>)
    ensures
        r is Some <==> has_program_header(data@, *header, i as int),
        r is Some ==> r.unwrap() == spec_program_header(data@, *header, i as int),
{
    if i >= header.ph_count || (header.ph_entry_size as usize) < PROGRAM_HEADER_SIZE {
        return None;
    }
    let len: u64 = data.len() as u64;
    assert((i as u64) * (header.ph_entry_size as u64) <= 0xffff * 0xffff) by (nonlinear_arith)
        requires
            i <= 0xffff,
            header.ph_entry_size <= 0xffff,
    ;
    let step: u64 = (i as u64) * (header.ph_entry_size as u64);
    if header.ph_offset > len || step > len - header.ph_offset || len - header.ph_offset - step
        < PROGRAM_HEADER_SIZE as u64 {
        return None;
    }
    let at: usize = (header.ph_offset + step) as usize;
    assert(at == ph_start(*header, i as int));
    Some(
        ProgramHeader {
            kind: read_u32(data, at),
            flags: read_u32(data, at + 4),
            offset: read_u64(data, at + 8),
            vaddr: read_u64(data, at + 16),
            file_size: read_u64(data, at + 32),
            mem_size: read_u64(data, at + 40),
        },
    )
}

} // verus!
