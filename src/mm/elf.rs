//! What the loader reads from an ELF image: the header and the program
//! headers of a 64-bit little-endian executable, read byte by byte.
use vstd::prelude::*;

verus! {

/// The parts of an ELF header that loading needs.
#[derive(Clone, Copy, Debug, PartialEq, Eq, Structural)]
pub struct ElfHeaderInfo {
    /// Entry point.
    pub entry: u64,
    /// File offset of the program-header table.
    pub ph_offset: u64,
    /// Size of one program header.
    pub ph_entry_size: u16,
    /// Number of program headers.
    pub ph_count: u16,
}

/// The parts of a program header that loading needs.
#[derive(Clone, Copy, Debug, PartialEq, Eq, Structural)]
pub struct ProgramSegment {
    /// Whether the segment is of type `LOAD`.
    pub load: bool,
    pub vaddr: u64,
    pub mem_size: u64,
    pub offset: u64,
    pub file_size: u64,
    pub readable: bool,
    pub writable: bool,
    pub executable: bool,
}

/// Type of a loadable segment.
pub const PT_LOAD: u32 = 1;
/// Segment flag: executable.
pub const PF_X: u32 = 1;
/// Segment flag: writable.
pub const PF_W: u32 = 2;
/// Segment flag: readable.
pub const PF_R: u32 = 4;
/// Size of a 64-bit program header.
pub const PH_SIZE: u64 = 56;

/// The little-endian 16-bit word at offset `o`.
pub open spec fn le_u16(d: Seq<u8>, o: int) -> u16 {
    (d[o] as u16) | ((d[o + 1] as u16) << 8u16)
}

/// The little-endian 32-bit word at offset `o`.
pub open spec fn le_u32(d: Seq<u8>, o: int) -> u32 {
    (d[o] as u32) | ((d[o + 1] as u32) << 8u32) | ((d[o + 2] as u32) << 16u32) | ((d[o + 3] as u32)
        << 24u32)
}

/// The little-endian 64-bit word at offset `o`.
pub open spec fn le_u64(d: Seq<u8>, o: int) -> u64 {
    (d[o] as u64) | ((d[o + 1] as u64) << 8u64) | ((d[o + 2] as u64) << 16u64) | ((d[o + 3] as u64)
        << 24u64) | ((d[o + 4] as u64) << 32u64) | ((d[o + 5] as u64) << 40u64) | ((d[o + 6] as u64)
        << 48u64) | ((d[o + 7] as u64) << 56u64)
}

/// The header of a 64-bit little-endian ELF image: the magic `7F 'E' 'L'
/// 'F'`, class 2 and data encoding 1, then the entry point at 24, the
/// program-header table's offset at 32, the size of its entries at 54 and
/// their number at 56. `None` for anything else.
pub open spec fn elf_header_of(data: Seq<u8>) -> Option<ElfHeaderInfo> {
    if data.len() >= 64 && data[0] == 0x7f && data[1] == 0x45 && data[2] == 0x4c && data[3] == 0x46
        && data[4] == 2 && data[5] == 1 {
        Some(
            ElfHeaderInfo {
                entry: le_u64(data, 24),
                ph_offset: le_u64(data, 32),
                ph_entry_size: le_u16(data, 54),
                ph_count: le_u16(data, 56),
            },
        )
    } else {
        None
    }
}

/// File offset of program header `index`.
pub open spec fn ph_start(h: ElfHeaderInfo, index: u16) -> int {
    h.ph_offset + index * h.ph_entry_size
}

/// Whether program header `index` lies inside the image.
pub open spec fn program_header_in_image(data: Seq<u8>, h: ElfHeaderInfo, index: u16) -> bool {
    h.ph_entry_size >= PH_SIZE && ph_start(h, index) + PH_SIZE <= data.len()
}

/// Program header `index`: its type at 0, flags at 4, file offset at 8,
/// virtual address at 16, file size at 32 and memory size at 40.
pub open spec fn elf_program_header_of(data: Seq<u8>, h: ElfHeaderInfo, index: u16) -> ProgramSegment {
    let o = ph_start(h, index);
    let flags = le_u32(data, o + 4);
    ProgramSegment {
        load: le_u32(data, o) == PT_LOAD,
        vaddr: le_u64(data, o + 16),
        mem_size: le_u64(data, o + 40),
        offset: le_u64(data, o + 8),
        file_size: le_u64(data, o + 32),
        readable: flags & PF_R != 0,
        writable: flags & PF_W != 0,
        executable: flags & PF_X != 0,
    }
}

fn read_u16(d: &[u8], o: usize) -> (r: u16)
    requires
        o + 2 <= d@.len(),
    ensures
        r == le_u16(d@, o as int),
{
    (d[o] as u16) | ((d[o + 1] as u16) << 8)
}

fn read_u32(d: &[u8], o: usize) -> (r: u32)
    requires
        o + 4 <= d@.len(),
    ensures
        r == le_u32(d@, o as int),
{
    (d[o] as u32) | ((d[o + 1] as u32) << 8) | ((d[o + 2] as u32) << 16) | ((d[o + 3] as u32) << 24)
}

fn read_u64(d: &[u8], o: usize) -> (r: u64)
    requires
        o + 8 <= d@.len(),
    ensures
        r == le_u64(d@, o as int),
{
    (d[o] as u64) | ((d[o + 1] as u64) << 8) | ((d[o + 2] as u64) << 16) | ((d[o + 3] as u64) << 24)
        | ((d[o + 4] as u64) << 32) | ((d[o + 5] as u64) << 40) | ((d[o + 6] as u64) << 48) | ((d[o
        + 7] as u64) << 56)
}

/// Reads the header of an image.
pub fn read_elf_header(data: &[u8]) -> (r: Option<ElfHeaderInfo>)
    ensures
        r == elf_header_of(data@),
{
    if data.len() < 64 {
        return None;
    }
    if !(data[0] == 0x7f && data[1] == 0x45 && data[2] == 0x4c && data[3] == 0x46 && data[4] == 2
        && data[5] == 1) {
        return None;
    }
    Some(
        ElfHeaderInfo {
            entry: read_u64(data, 24),
            ph_offset: read_u64(data, 32),
            ph_entry_size: read_u16(data, 54),
            ph_count: read_u16(data, 56),
        },
    )
}

/// Reads program header `index`; `None` when it does not lie inside the
/// image.
pub fn read_program_header(data: &[u8], h: ElfHeaderInfo, index: u16) -> (r: Option<ProgramSegment>)
    ensures
        r == if program_header_in_image(data@, h, index) {
            Some(elf_program_header_of(data@, h, index))
        } else {
            None
        },
{
    let len = data.len() as u64;
    let entry_size = h.ph_entry_size as u64;
    if entry_size < PH_SIZE {
        return None;
    }
    assert((index as u64) * entry_size < 0x1_0000_0000) by (nonlinear_arith)
        requires
            index < 0x1_0000,
            entry_size < 0x1_0000,
    ;
    let rel = (index as u64) * entry_size;
    if h.ph_offset > len || rel > len - h.ph_offset || PH_SIZE > len - h.ph_offset - rel {
        return None;
    }
    let o = (h.ph_offset + rel) as usize;
    let flags = read_u32(data, o + 4);
    Some(
        ProgramSegment {
            load: read_u32(data, o) == PT_LOAD,
            vaddr: read_u64(data, o + 16),
            mem_size: read_u64(data, o + 40),
            offset: read_u64(data, o + 8),
            file_size: read_u64(data, o + 32),
            readable: flags & PF_R != 0,
            writable: flags & PF_W != 0,
            executable: flags & PF_X != 0,
        },
    )
}

} // verus!
