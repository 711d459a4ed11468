//! The chunks that an output file is assembled from, and the segments that
//! group them.
use crate::macho::consts::{
    SECTION_TYPE, S_THREAD_LOCAL_ZEROFILL, S_ZEROFILL, VM_PROT_EXECUTE, VM_PROT_READ,
    VM_PROT_WRITE,
};
use crate::util::bytes;
use vstd::prelude::*;
use vstd::string::*;

verus! {

/// What every chunk has: its names, its place and its attributes.
#[derive(Debug)]
pub struct ChunkHeader {
    pub segname: Vec<u8>,
    pub sectname: Vec<u8>,
    pub addr: u64,
    pub fileoff: u64,
    pub size: u64,
    pub p2align: u32,
    pub flags: u32,
    pub reserved1: u32,
    pub reserved2: u32,
    /// Whether the chunk is described by a section header in its segment's
    /// load command.
    pub is_sect: bool,
    /// The 1-based ordinal of the section among the output's sections, 0
    /// for a chunk that is not a section.
    pub n_sect: u8,
}

/// What a chunk header holds, as mathematical values.
#[verifier::ext_equal]
pub struct HeaderView {
    pub segname: Seq<u8>,
    pub sectname: Seq<u8>,
    pub addr: u64,
    pub fileoff: u64,
    pub size: u64,
    pub p2align: u32,
    pub flags: u32,
    pub reserved1: u32,
    pub reserved2: u32,
    pub is_sect: bool,
    pub n_sect: u8,
}

impl View for ChunkHeader {
    type V = HeaderView;

    open spec fn view(&self) -> HeaderView {
        HeaderView {
            segname: self.segname@,
            sectname: self.sectname@,
            addr: self.addr,
            fileoff: self.fileoff,
            size: self.size,
            p2align: self.p2align,
            flags: self.flags,
            reserved1: self.reserved1,
            reserved2: self.reserved2,
            is_sect: self.is_sect,
            n_sect: self.n_sect,
        }
    }
}

/// The header of a new section of the image.
pub open spec fn new_header(segname: Seq<u8>, sectname: Seq<u8>) -> HeaderView {
    HeaderView {
        segname,
        sectname,
        addr: 0,
        fileoff: 0,
        size: 0,
        p2align: 0,
        flags: 0,
        reserved1: 0,
        reserved2: 0,
        is_sect: true,
        n_sect: 0,
    }
}

/// The header of a new __LINKEDIT table.
pub open spec fn linkedit_header() -> HeaderView {
    HeaderView { is_sect: false, ..new_header("__LINKEDIT".spec_bytes(), Seq::empty()) }
}

impl HeaderView {
    /// True for a section that occupies no file space.
    pub open spec fn zerofill(self) -> bool {
        self.flags & SECTION_TYPE == S_ZEROFILL || self.flags & SECTION_TYPE
            == S_THREAD_LOCAL_ZEROFILL
    }

    /// True for a section of the given names.
    pub open spec fn is_named(self, segname: Seq<u8>, sectname: Seq<u8>) -> bool {
        self.is_sect && self.segname == segname && self.sectname == sectname
    }
}

impl ChunkHeader {
    /// The header of a section of the image.
    pub fn new(segname: &[u8], sectname: &[u8]) -> (r: ChunkHeader)
        ensures
            r@ == new_header(segname@, sectname@),
    {
        ChunkHeader {
            segname: bytes::to_vec(segname),
            sectname: bytes::to_vec(sectname),
            addr: 0,
            fileoff: 0,
            size: 0,
            p2align: 0,
            flags: 0,
            reserved1: 0,
            reserved2: 0,
            is_sect: true,
            n_sect: 0,
        }
    }

    /// The header of a __LINKEDIT table, which no section header describes.
    pub fn linkedit() -> (r: ChunkHeader)
        ensures
            r@ == linkedit_header(),
    {
        let empty: Vec<u8> = Vec::new();
        let mut hdr = ChunkHeader::new("__LINKEDIT".as_bytes(), empty.as_slice());
        hdr.is_sect = false;
        assert(hdr.sectname@ =~= Seq::empty());
        hdr
    }

    /// True for a section that occupies no file space.
    pub fn is_zerofill(&self) -> (r: bool)
        ensures
            r == self@.zerofill(),
    {
        let kind: u32 = self.flags & SECTION_TYPE;
        kind == S_ZEROFILL || kind == S_THREAD_LOCAL_ZEROFILL
    }

    /// True for a section of the given names.
    pub fn has_names(&self, segname: &[u8], sectname: &[u8]) -> (r: bool)
        ensures
            r == self@.is_named(segname@, sectname@),
    {
        self.is_sect && bytes::same(self.segname.as_slice(), segname) && bytes::same(
            self.sectname.as_slice(),
            sectname,
        )
    }
}

/// Index of an output section.
#[derive(Clone, Copy, Debug, PartialEq, Eq, PartialOrd, Ord, Hash, Structural)]
pub struct OutputSectionId {
    /// The index plus one, so that zero is no id.
    pub encoded: u32,
}

impl OutputSectionId {
    /// The id of the section at an index.
    pub open spec fn at(index: int) -> OutputSectionId {
        OutputSectionId { encoded: (index + 1) as u32 }
    }

    /// True for the id of some index.
    pub open spec fn ok(self) -> bool {
        self.encoded > 0
    }

    /// The id of the section at `index`.
    pub fn new(index: u32) -> (r: OutputSectionId)
        requires
            index < u32::MAX,
        ensures
            r == OutputSectionId::at(index as int),
            r.ok(),
            r.encoded - 1 == index,
    {
        OutputSectionId { encoded: index + 1 }
    }

    /// The section's index.
    pub fn index(self) -> (r: usize)
        requires
            self.ok(),
        ensures
            r == self.encoded - 1,
            OutputSectionId::at(r as int) == self,
    {
        (self.encoded - 1) as usize
    }
}

/// Names a chunk of the output. Every kind but the output sections and the
/// -sectcreate sections exists at most once, so that the kind alone names
/// it.
#[derive(Clone, Copy, Debug, PartialEq, Eq, Hash, Structural)]
pub enum ChunkId {
    /// The mach header, load commands and header padding.
    MachHeader,
    /// A section of the output image, concatenating input sections.
    Output(OutputSectionId),
    Stubs,
    StubHelper,
    LazyPtrs,
    Got,
    ThreadPtrs,
    ObjcStubs,
    ObjcMethlist,
    ObjcImageInfo,
    /// A section created from a file by -sectcreate, by its index.
    SectCreate(u32),
    InitOffsets,
    UnwindInfo,
    EhFrame,
    RebaseInfo,
    BindInfo,
    WeakBindInfo,
    LazyBindInfo,
    ChainedFixups,
    ExportTrie,
    FunctionStarts,
    DataInCode,
    IndirectSymtab,
    Symtab,
    Strtab,
    /// Must be the last chunk in the file.
    CodeSignature,
}

/// The number of packed ids of each shape.
pub const ID_RANGE: u32 = 0x4000_0000;

impl ChunkId {
    /// The chunk that exists at most once and has the given number.
    pub open spec fn unit(i: int) -> Option<ChunkId> {
        if i == 0 {
            Some(ChunkId::MachHeader)
        } else if i == 1 {
            Some(ChunkId::Stubs)
        } else if i == 2 {
            Some(ChunkId::StubHelper)
        } else if i == 3 {
            Some(ChunkId::LazyPtrs)
        } else if i == 4 {
            Some(ChunkId::Got)
        } else if i == 5 {
            Some(ChunkId::ThreadPtrs)
        } else if i == 6 {
            Some(ChunkId::ObjcStubs)
        } else if i == 7 {
            Some(ChunkId::ObjcMethlist)
        } else if i == 8 {
            Some(ChunkId::ObjcImageInfo)
        } else if i == 9 {
            Some(ChunkId::InitOffsets)
        } else if i == 10 {
            Some(ChunkId::UnwindInfo)
        } else if i == 11 {
            Some(ChunkId::EhFrame)
        } else if i == 12 {
            Some(ChunkId::RebaseInfo)
        } else if i == 13 {
            Some(ChunkId::BindInfo)
        } else if i == 14 {
            Some(ChunkId::WeakBindInfo)
        } else if i == 15 {
            Some(ChunkId::LazyBindInfo)
        } else if i == 16 {
            Some(ChunkId::ChainedFixups)
        } else if i == 17 {
            Some(ChunkId::ExportTrie)
        } else if i == 18 {
            Some(ChunkId::FunctionStarts)
        } else if i == 19 {
            Some(ChunkId::DataInCode)
        } else if i == 20 {
            Some(ChunkId::IndirectSymtab)
        } else if i == 21 {
            Some(ChunkId::Symtab)
        } else if i == 22 {
            Some(ChunkId::Strtab)
        } else if i == 23 {
            Some(ChunkId::CodeSignature)
        } else {
            None
        }
    }

    /// The number of a chunk that exists at most once.
    fn unit_number(self) -> (r: u32)
        requires
            !(self is Output),
            !(self is SectCreate),
        ensures
            r < 24,
            ChunkId::unit(r as int) == Some(self),
    {
        match self {
            ChunkId::MachHeader => 0,
            ChunkId::Stubs => 1,
            ChunkId::StubHelper => 2,
            ChunkId::LazyPtrs => 3,
            ChunkId::Got => 4,
            ChunkId::ThreadPtrs => 5,
            ChunkId::ObjcStubs => 6,
            ChunkId::ObjcMethlist => 7,
            ChunkId::ObjcImageInfo => 8,
            ChunkId::InitOffsets => 9,
            ChunkId::UnwindInfo => 10,
            ChunkId::EhFrame => 11,
            ChunkId::RebaseInfo => 12,
            ChunkId::BindInfo => 13,
            ChunkId::WeakBindInfo => 14,
            ChunkId::LazyBindInfo => 15,
            ChunkId::ChainedFixups => 16,
            ChunkId::ExportTrie => 17,
            ChunkId::FunctionStarts => 18,
            ChunkId::DataInCode => 19,
            ChunkId::IndirectSymtab => 20,
            ChunkId::Symtab => 21,
            ChunkId::Strtab => 22,
            _ => 23,
        }
    }

    /// True for an id that can be packed: its index fits in 30 bits.
    pub open spec fn packable(self) -> bool {
        match self {
            ChunkId::Output(id) => id.ok() && id.encoded - 1 < ID_RANGE,
            ChunkId::SectCreate(i) => i < ID_RANGE,
            _ => true,
        }
    }

    /// The id that a word stands for. The top two bits say which of the
    /// three shapes it is, the rest holds the index.
    pub open spec fn unpacked(v: u32) -> Option<ChunkId> {
        if v < ID_RANGE {
            Some(ChunkId::Output(OutputSectionId::at(v as int)))
        } else if v < 2 * ID_RANGE {
            Some(ChunkId::SectCreate((v - ID_RANGE) as u32))
        } else {
            ChunkId::unit((v - 2 * ID_RANGE) % ID_RANGE as int)
        }
    }

    /// The id as one word, which is never `u32::MAX`.
    pub fn pack(self) -> (r: u32)
        requires
            self.packable(),
        ensures
            ChunkId::unpacked(r) == Some(self),
            r < 2 * ID_RANGE + 24,
    {
        match self {
            ChunkId::Output(id) => (id.encoded - 1),
            ChunkId::SectCreate(i) => ID_RANGE + i,
            _ => 2 * ID_RANGE + self.unit_number(),
        }
    }

    /// The id that a word stands for.
    pub fn unpack(v: u32) -> (r: ChunkId)
        requires
            ChunkId::unpacked(v) is Some,
        ensures
            ChunkId::unpacked(v) == Some(r),
    {
        if v < ID_RANGE {
            return ChunkId::Output(OutputSectionId::new(v));
        }
        if v < 2 * ID_RANGE {
            return ChunkId::SectCreate(v - ID_RANGE);
        }
        let i: u32 = (v - 2 * ID_RANGE) % ID_RANGE;
        match i {
            0 => ChunkId::MachHeader,
            1 => ChunkId::Stubs,
            2 => ChunkId::StubHelper,
            3 => ChunkId::LazyPtrs,
            4 => ChunkId::Got,
            5 => ChunkId::ThreadPtrs,
            6 => ChunkId::ObjcStubs,
            7 => ChunkId::ObjcMethlist,
            8 => ChunkId::ObjcImageInfo,
            9 => ChunkId::InitOffsets,
            10 => ChunkId::UnwindInfo,
            11 => ChunkId::EhFrame,
            12 => ChunkId::RebaseInfo,
            13 => ChunkId::BindInfo,
            14 => ChunkId::WeakBindInfo,
            15 => ChunkId::LazyBindInfo,
            16 => ChunkId::ChainedFixups,
            17 => ChunkId::ExportTrie,
            18 => ChunkId::FunctionStarts,
            19 => ChunkId::DataInCode,
            20 => ChunkId::IndirectSymtab,
            21 => ChunkId::Symtab,
            22 => ChunkId::Strtab,
            _ => ChunkId::CodeSignature,
        }
    }
}

/// A packed id means one chunk: ids that are packed alike are the same.
pub proof fn lemma_pack_injective(a: ChunkId, b: ChunkId, word: u32)
    requires
        ChunkId::unpacked(word) == Some(a),
        ChunkId::unpacked(word) == Some(b),
    ensures
        a == b,
{
}

/// The mach header, load commands and header padding: the first chunk of
/// __TEXT.
#[derive(Debug)]
pub struct OutputMachHeader {
    pub hdr: ChunkHeader,
}

/// The header of the chunk that holds the mach header.
pub open spec fn mach_header_chunk() -> HeaderView {
    HeaderView { is_sect: false, ..new_header("__TEXT".spec_bytes(), Seq::empty()) }
}

impl OutputMachHeader {
    /// The chunk, not placed yet.
    pub fn new() -> (r: OutputMachHeader)
        ensures
            r.hdr@ == mach_header_chunk(),
    {
        let empty: Vec<u8> = Vec::new();
        let mut hdr = ChunkHeader::new("__TEXT".as_bytes(), empty.as_slice());
        hdr.is_sect = false;
        assert(hdr.sectname@ =~= Seq::empty());
        OutputMachHeader { hdr }
    }
}

/// What a chunk of the output holds.
#[derive(Clone, Copy, Debug, PartialEq, Eq, Structural)]
pub enum ChunkKind {
    MachHeader,
    Output,
    Stubs,
    Got,
    ThreadPtrs,
    ObjcStubs,
    ObjcMethname,
    ObjcSelrefs,
    ObjcImageInfo,
    SectCreate,
    InitOffsets,
    UnwindInfo,
    EhFrame,
    RebaseInfo,
    BindInfo,
    ChainedFixups,
    ExportTrie,
    SplitInfo,
    FunctionStarts,
    DataInCode,
    IndirectSymtab,
    Symtab,
    Strtab,
    CodeSignature,
}

/// A range-extension thunk: an island of jumps inside an output section.
#[derive(Debug)]
pub struct Thunk {
    /// Offset within the output section.
    pub offset: u64,
    /// The symbol of each entry.
    pub syms: Vec<u32>,
}

/// What a thunk holds, as mathematical values.
#[verifier::ext_equal]
pub struct ThunkView {
    pub offset: u64,
    pub syms: Seq<u32>,
}

impl View for Thunk {
    type V = ThunkView;

    open spec fn view(&self) -> ThunkView {
        ThunkView { offset: self.offset, syms: self.syms@ }
    }
}

/// A chunk of the output.
#[derive(Debug)]
pub struct Chunk {
    pub hdr: ChunkHeader,
    pub kind: ChunkKind,
    /// The subsections of an output section, in order.
    pub isecs: Vec<u32>,
    /// The range-extension thunks of an output section.
    pub thunks: Vec<Thunk>,
    /// The contents of a section created from a file.
    pub contents: Vec<u8>,
    /// Where synthesized data starts behind the subsections.
    pub tail_off: u64,
}

/// What a chunk holds, as mathematical values.
#[verifier::ext_equal]
pub struct ChunkView {
    pub hdr: HeaderView,
    pub kind: ChunkKind,
    pub isecs: Seq<u32>,
    pub thunks: Seq<ThunkView>,
    pub contents: Seq<u8>,
    pub tail_off: u64,
}

impl View for Chunk {
    type V = ChunkView;

    open spec fn view(&self) -> ChunkView {
        ChunkView {
            hdr: self.hdr@,
            kind: self.kind,
            isecs: self.isecs@,
            thunks: self.thunks@.map_values(|t: Thunk| t@),
            contents: self.contents@,
            tail_off: self.tail_off,
        }
    }
}

/// What a list of chunks holds.
pub open spec fn chunk_views(chunks: Seq<Chunk>) -> Seq<ChunkView> {
    chunks.map_values(|c: Chunk| c@)
}

/// A new chunk without contents.
pub open spec fn new_chunk(hdr: HeaderView, kind: ChunkKind) -> ChunkView {
    ChunkView {
        hdr,
        kind,
        isecs: Seq::empty(),
        thunks: Seq::empty(),
        contents: Seq::empty(),
        tail_off: 0,
    }
}

impl Chunk {
    /// A new chunk without contents.
    pub fn new(hdr: ChunkHeader, kind: ChunkKind) -> (r: Chunk)
        ensures
            r@ == new_chunk(hdr@, kind),
            r.hdr == hdr,
    {
        let r = Chunk {
            hdr,
            kind,
            isecs: Vec::new(),
            thunks: Vec::new(),
            contents: Vec::new(),
            tail_off: 0,
        };
        assert(r@ =~= new_chunk(hdr@, kind));
        r
    }
}

/// The place that a segment occupies in memory and in the file.
#[derive(Clone, Copy, Debug, PartialEq, Eq, Default, Structural)]
pub struct SegmentPlace {
    pub vmaddr: u64,
    pub vmsize: u64,
    pub fileoff: u64,
    pub filesize: u64,
}

/// A segment of the output file, grouping chunks.
#[derive(Debug, Default)]
pub struct OutputSegment {
    pub name: Vec<u8>,
    /// The indices of its chunks, in file order.
    pub chunks: Vec<usize>,
    pub cmd: SegmentPlace,
}

/// What a segment holds, as mathematical values.
#[verifier::ext_equal]
pub struct SegmentView {
    pub name: Seq<u8>,
    pub chunks: Seq<usize>,
    pub cmd: SegmentPlace,
}

impl View for OutputSegment {
    type V = SegmentView;

    open spec fn view(&self) -> SegmentView {
        SegmentView { name: self.name@, chunks: self.chunks@, cmd: self.cmd }
    }
}

/// What a list of segments holds.
pub open spec fn segment_views(segments: Seq<OutputSegment>) -> Seq<SegmentView> {
    segments.map_values(|s: OutputSegment| s@)
}

/// A segment that is not placed yet.
pub open spec fn no_place() -> SegmentPlace {
    SegmentPlace { vmaddr: 0, vmsize: 0, fileoff: 0, filesize: 0 }
}

impl OutputSegment {
    /// A segment without chunks.
    pub fn new(name: &[u8]) -> (r: OutputSegment)
        ensures
            r@ == (SegmentView { name: name@, chunks: Seq::empty(), cmd: no_place() }),
    {
        let r = OutputSegment {
            name: bytes::to_vec(name),
            chunks: Vec::new(),
            cmd: SegmentPlace { vmaddr: 0, vmsize: 0, fileoff: 0, filesize: 0 },
        };
        assert(r.chunks@ =~= Seq::empty());
        r
    }
}

/// The protection of a segment by its name.
pub open spec fn prot_of(name: Seq<u8>) -> u32 {
    if name == "__PAGEZERO".spec_bytes() {
        0
    } else if name == "__TEXT".spec_bytes() {
        VM_PROT_READ | VM_PROT_EXECUTE
    } else if name == "__LINKEDIT".spec_bytes() {
        VM_PROT_READ
    } else {
        VM_PROT_READ | VM_PROT_WRITE
    }
}

/// The protection of a segment by its name.
pub fn segment_prot(name: &[u8]) -> (r: u32)
    ensures
        r == prot_of(name@),
{
    if bytes::same(name, "__PAGEZERO".as_bytes()) {
        0
    } else if bytes::same(name, "__TEXT".as_bytes()) {
        VM_PROT_READ | VM_PROT_EXECUTE
    } else if bytes::same(name, "__LINKEDIT".as_bytes()) {
        VM_PROT_READ
    } else {
        VM_PROT_READ | VM_PROT_WRITE
    }
}

} // verus!
