//! The tables in __LINKEDIT and the smaller synthetic sections.
use crate::output_chunks::header::ChunkHeader;
use crate::macho::consts::S_INIT_FUNC_OFFSETS;
use crate::macho::NList;
use crate::util::bytes;
use vstd::string::*;
use vstd::prelude::*;

verus! {

/// The LC_DYLD_CHAINED_FIXUPS payload.
#[derive(Debug)]
pub struct ChainedFixupsSection {
    pub hdr: ChunkHeader,
    /// The encoded table.
    pub contents: Vec<u8>,
    /// Every fixup, sorted by address: address, bound symbol, addend.
    pub fixups: Vec<(u64, Option<u32>, u64)>,
    /// The import table: symbol and addend.
    pub imports: Vec<(u32, u64)>,
}

impl ChainedFixupsSection {
    /// An empty table that is not placed yet.
    pub fn new() -> (r: ChainedFixupsSection)
        ensures
            r.hdr@ == crate::output_chunks::header::linkedit_header(),
            r.contents.len() == 0,
            r.fixups.len() == 0,
            r.imports.len() == 0,
    {
        ChainedFixupsSection {
            hdr: ChunkHeader::linkedit(),
            contents: Vec::new(),
            fixups: Vec::new(),
            imports: Vec::new(),
        }
    }
}

/// The weak-bind opcode stream: the slots dyld redirects when another image's
/// copy of a weak definition wins.
#[derive(Debug)]
pub struct WeakBindInfoSection {
    pub hdr: ChunkHeader,
    /// The encoded table.
    pub contents: Vec<u8>,
}

impl WeakBindInfoSection {
    /// An empty table that is not placed yet.
    pub fn new() -> (r: WeakBindInfoSection)
        ensures
            r.hdr@ == crate::output_chunks::header::linkedit_header(),
            r.contents.len() == 0,
    {
        WeakBindInfoSection {
            hdr: ChunkHeader::linkedit(),
            contents: Vec::new(),
        }
    }
}

/// The lazy-bind opcode stream: one record per lazy pointer.
#[derive(Debug)]
pub struct LazyBindInfoSection {
    pub hdr: ChunkHeader,
    /// The encoded table.
    pub contents: Vec<u8>,
    /// Each stub's record offset.
    pub offsets: Vec<u32>,
}

impl LazyBindInfoSection {
    /// An empty table that is not placed yet.
    pub fn new() -> (r: LazyBindInfoSection)
        ensures
            r.hdr@ == crate::output_chunks::header::linkedit_header(),
            r.contents.len() == 0,
            r.offsets.len() == 0,
    {
        LazyBindInfoSection {
            hdr: ChunkHeader::linkedit(),
            contents: Vec::new(),
            offsets: Vec::new(),
        }
    }
}

/// The export trie: dyld's index of exported symbols.
#[derive(Debug)]
pub struct ExportTrieSection {
    pub hdr: ChunkHeader,
    /// The encoded table.
    pub contents: Vec<u8>,
}

impl ExportTrieSection {
    /// An empty table that is not placed yet.
    pub fn new() -> (r: ExportTrieSection)
        ensures
            r.hdr@ == crate::output_chunks::header::linkedit_header(),
            r.contents.len() == 0,
    {
        ExportTrieSection {
            hdr: ChunkHeader::linkedit(),
            contents: Vec::new(),
        }
    }
}

/// The ranges inside code that hold data.
#[derive(Debug)]
pub struct DataInCodeSection {
    pub hdr: ChunkHeader,
    /// File offset, length and kind of each range.
    pub entries: Vec<(u32, u16, u16)>,
}

impl DataInCodeSection {
    /// An empty table that is not placed yet.
    pub fn new() -> (r: DataInCodeSection)
        ensures
            r.hdr@ == crate::output_chunks::header::linkedit_header(),
            r.entries.len() == 0,
    {
        DataInCodeSection {
            hdr: ChunkHeader::linkedit(),
            entries: Vec::new(),
        }
    }
}

/// The ad-hoc code signature.
#[derive(Debug)]
pub struct CodeSignatureSection {
    pub hdr: ChunkHeader,
}

impl CodeSignatureSection {
    /// An empty table that is not placed yet.
    pub fn new() -> (r: CodeSignatureSection)
        ensures
            r.hdr@ == crate::output_chunks::header::linkedit_header(),
    {
        CodeSignatureSection {
            hdr: ChunkHeader::linkedit(),
        }
    }
}

/// The symbol table, laid out before addresses are known.
#[derive(Debug)]
pub struct SymtabSection {
    pub hdr: ChunkHeader,
    /// Each entry, with the symbol that supplies its value.
    pub entries: Vec<(NList, Option<u32>)>,
    /// The string table's size.
    pub strtab_size: u64,
    /// Each distinct string with its offset in the string table.
    pub strtab_uniques: Vec<(u32, Vec<u8>)>,
    /// The number of local symbols.
    pub nlocal: u32,
    /// The number of defined globals.
    pub nextdef: u32,
    /// The number of undefined symbols.
    pub nundef: u32,
    /// Each symbol's index in the table, `u32::MAX` if absent.
    pub output_sym_indices: Vec<u32>,
}

impl SymtabSection {
    /// An empty table that is not placed yet.
    pub fn new() -> (r: SymtabSection)
        ensures
            r.hdr@ == crate::output_chunks::header::linkedit_header(),
            r.entries.len() == 0,
            r.strtab_size == 0,
            r.strtab_uniques.len() == 0,
            r.nlocal == 0,
            r.nextdef == 0,
            r.nundef == 0,
            r.output_sym_indices.len() == 0,
    {
        SymtabSection {
            hdr: ChunkHeader::linkedit(),
            entries: Vec::new(),
            strtab_size: 0,
            strtab_uniques: Vec::new(),
            nlocal: 0,
            nextdef: 0,
            nundef: 0,
            output_sym_indices: Vec::new(),
        }
    }
}

/// The string table.
#[derive(Debug)]
pub struct StrtabSection {
    pub hdr: ChunkHeader,
}

impl StrtabSection {
    /// An empty table that is not placed yet.
    pub fn new() -> (r: StrtabSection)
        ensures
            r.hdr@ == crate::output_chunks::header::linkedit_header(),
    {
        StrtabSection {
            hdr: ChunkHeader::linkedit(),
        }
    }
}

/// The indirect symbol table: the output symbol of each slot.
#[derive(Debug)]
pub struct IndirectSymtabSection {
    pub hdr: ChunkHeader,
}

impl IndirectSymtabSection {
    /// An empty table that is not placed yet.
    pub fn new() -> (r: IndirectSymtabSection)
        ensures
            r.hdr@ == crate::output_chunks::header::linkedit_header(),
    {
        IndirectSymtabSection {
            hdr: ChunkHeader::linkedit(),
        }
    }
}

/// __TEXT,__eh_frame: the DWARF unwind records that compact unwind cannot
/// express.
#[derive(Debug)]
pub struct EhFrameSection {
    pub hdr: ChunkHeader,
}

impl EhFrameSection {
    /// The section, not placed yet.
    pub fn new() -> (r: EhFrameSection)
        ensures
            r.hdr@ == (crate::output_chunks::header::HeaderView {
                p2align: 3,
                ..crate::output_chunks::header::new_header(
                    "__TEXT".spec_bytes(),
                    "__eh_frame".spec_bytes(),
                )
            }),
    {
        let mut hdr = ChunkHeader::new("__TEXT".as_bytes(), "__eh_frame".as_bytes());
        hdr.p2align = 3;
        EhFrameSection { hdr }
    }
}

/// __TEXT,__unwind_info: the compact unwind table.
#[derive(Debug)]
pub struct UnwindInfoSection {
    pub hdr: ChunkHeader,
    /// The encoded table, except its personality cells.
    pub contents: Vec<u8>,
    /// The symbols whose GOT addresses the personality cells hold.
    pub personalities: Vec<u32>,
}

impl UnwindInfoSection {
    /// The section, not placed yet.
    pub fn new() -> (r: UnwindInfoSection)
        ensures
            r.hdr@ == (crate::output_chunks::header::HeaderView {
                p2align: 2,
                ..crate::output_chunks::header::new_header(
                    "__TEXT".spec_bytes(),
                    "__unwind_info".spec_bytes(),
                )
            }),
            r.contents.len() == 0,
            r.personalities.len() == 0,
    {
        let mut hdr = ChunkHeader::new("__TEXT".as_bytes(), "__unwind_info".as_bytes());
        hdr.p2align = 2;
        UnwindInfoSection { hdr, contents: Vec::new(), personalities: Vec::new() }
    }
}

/// A section created from a file by -sectcreate, or an empty one.
#[derive(Debug)]
pub struct SectCreateSection {
    pub hdr: ChunkHeader,
    pub contents: Vec<u8>,
}

impl SectCreateSection {
    /// The section with its contents, not placed yet.
    pub fn new(segname: &[u8], sectname: &[u8], contents: &[u8]) -> (r: SectCreateSection)
        ensures
            r.hdr@ == (crate::output_chunks::header::HeaderView {
                size: contents.len() as u64,
                ..crate::output_chunks::header::new_header(segname@, sectname@)
            }),
            r.contents@ == contents@,
    {
        let mut hdr = ChunkHeader::new(segname, sectname);
        hdr.size = contents.len() as u64;
        SectCreateSection { hdr, contents: bytes::to_vec(contents) }
    }
}

/// __TEXT,__init_offsets: 32-bit image-relative initializer offsets.
#[derive(Debug)]
pub struct InitOffsetsSection {
    pub hdr: ChunkHeader,
    /// The subsection and offset of each initializer, in run order.
    pub init_funcs: Vec<(usize, u64)>,
}

impl InitOffsetsSection {
    /// The section, not placed yet.
    pub fn new() -> (r: InitOffsetsSection)
        ensures
            r.hdr@ == (crate::output_chunks::header::HeaderView {
                flags: S_INIT_FUNC_OFFSETS,
                p2align: 2,
                ..crate::output_chunks::header::new_header(
                    "__TEXT".spec_bytes(),
                    "__init_offsets".spec_bytes(),
                )
            }),
            r.init_funcs.len() == 0,
    {
        let mut hdr = ChunkHeader::new("__TEXT".as_bytes(), "__init_offsets".as_bytes());
        hdr.flags = S_INIT_FUNC_OFFSETS;
        hdr.p2align = 2;
        InitOffsetsSection { hdr, init_funcs: Vec::new() }
    }
}

} // verus!
