//! Target architecture abstraction.
//!
//! The linker is generic over [`Arch`], which selects a CPU type and the
//! target-dependent relocation handling.

pub mod arm64;
pub mod arm64_laws;
pub mod laws;
pub mod list_laws;
pub mod reading_laws;
pub mod x86_64;
pub mod x86_64_laws;

pub use arm64::Arm64;
pub use x86_64::X86_64;

use crate::input_sections::Reloc;
use crate::macho::consts::{CPU_TYPE_ARM64, CPU_TYPE_X86_64};
use crate::macho::{MachRel, MachSection, SectionView};
use vstd::prelude::*;

verus! {

/// How a relocation type uses its target symbol.
#[derive(Clone, Copy, Debug, PartialEq, Eq, Structural)]
pub enum RelocClass {
    /// A branch, which needs a stub if the target is imported.
    Branch,
    /// A reference through the GOT.
    Got,
    /// A load through the GOT that can relax to a direct address
    /// computation when the target is local.
    GotLoad,
    /// A reference to a thread-local variable pointer.
    Tlv,
    /// A direct reference.
    Plain,
}

/// The fixed parameters of a target.
#[derive(Clone, Copy, Debug, PartialEq, Eq, Structural)]
pub struct ArchInfo {
    pub cputype: u32,
    pub cpusubtype: u32,
    pub page_size: u64,
    /// The size of one __stubs entry.
    pub stub_size: u64,
    /// The compact unwind encoding mode meaning "use DWARF instead".
    pub unwind_mode_dwarf: u32,
    /// The size of one __objc_stubs entry.
    pub objc_stub_size: u64,
    /// The span a branch instruction can cover (both directions together).
    pub branch_range: u64,
    /// The size of one range-extension thunk entry.
    pub thunk_size: u64,
    /// The relocation types for a plain absolute word, a subtraction pair,
    /// and a GOT-relative pointer.
    pub reloc_unsigned: u8,
    pub reloc_subtractor: u8,
    pub reloc_gotpc: u8,
    /// The explicit-addend relocation type, for targets that have one.
    pub reloc_addend: u8,
}

impl ArchInfo {
    /// What every target's parameters satisfy.
    pub open spec fn ok(self) -> bool {
        &&& (self.page_size == 4096 || self.page_size == 16384)
        &&& 0 < self.stub_size <= 64
        &&& 0 < self.objc_stub_size <= 64
        &&& self.thunk_size <= 64
        &&& 0x800_0000 < self.branch_range <= 0x1_0000_0000
        &&& self.reloc_unsigned < 16
        &&& self.reloc_subtractor < 16
        &&& self.reloc_gotpc < 16
    }
}

/// Why relocation records cannot be read.
#[derive(Clone, Copy, Debug, PartialEq, Eq, Structural)]
pub enum RelocError {
    /// The field is neither four nor eight bytes wide.
    BadSize,
    /// No section holds the target of the record at this address.
    BadTarget(u32),
    /// A record or the field it names is cut off by the end of the file.
    Truncated,
}

/// A relocation with everything that applying it needs to know of its
/// target.
#[derive(Clone, Copy, Debug, PartialEq, Eq, Structural)]
pub struct ResolvedReloc {
    pub rel: Reloc,
    /// The target's output address.
    pub s: u64,
    /// True when dyld fills in the target's address.
    pub is_imported: bool,
    /// True when the target is thread-local data.
    pub is_tls: bool,
    /// The address of the target symbol's __got slot.
    pub got: u64,
    /// The address of the target symbol's __thread_ptrs slot.
    pub tlv_ptr: u64,
    /// True when the target is a symbol.
    pub is_sym: bool,
}

/// Why a relocation cannot be applied.
#[derive(Clone, Copy, Debug, PartialEq, Eq, Structural)]
pub enum ApplyError {
    /// The field does not fit in the section.
    OutOfBounds,
    /// A subtraction is not followed by its minuend, or has a bad width.
    BadSubtractor,
    /// A slot is referenced through something other than a symbol.
    NeedsSymbol,
    /// A branch cannot reach its target.
    BranchOutOfRange,
    /// The target knows no such relocation type.
    UnsupportedType(u8),
}

/// The first section that holds `addr`.
pub open spec fn section_at(sections: Seq<SectionView>, addr: int, from: int) -> Option<int>
    decreases sections.len() - from,
{
    if from >= sections.len() {
        None
    } else if sections[from].addr <= addr < sections[from].addr + sections[from].size {
        Some(from)
    } else {
        section_at(sections, addr, from + 1)
    }
}

/// What a list of section records says.
pub open spec fn section_views(sections: Seq<MachSection>) -> Seq<SectionView> {
    sections.map_values(|s: MachSection| s@)
}

/// The first section that holds `addr`.
pub fn find_section(sections: &[MachSection], addr: u64) -> (r: Option<usize>)
    ensures
        match r {
            Some(i) => section_at(section_views(sections@), addr as int, 0) == Some(i as int) && i
                < sections.len() && sections[i as int].addr <= addr,
            None => section_at(section_views(sections@), addr as int, 0) is None,
        },
{
    let ghost views = section_views(sections@);
    let mut i: usize = 0;
    while i < sections.len()
        invariant
            i <= sections.len(),
            views == section_views(sections@),
            section_at(views, addr as int, 0) == section_at(views, addr as int, i as int),
        decreases sections.len() - i,
    {
        assert(views[i as int] == sections[i as int]@);
        if sections[i].addr <= addr && addr - sections[i].addr < sections[i].size {
            return Some(i);
        }
        i += 1;
    }
    None
}

/// A target architecture.
pub trait Arch {
    /// The target's parameters.
    spec fn info() -> ArchInfo;

    /// The target's parameters.
    fn get_info() -> (r: ArchInfo)
        ensures
            r == Self::info(),
            r.ok(),
    ;

    /// The parameters are sensible.
    proof fn info_ok()
        ensures
            Self::info().ok(),
    ;

    /// Entries of synthesized code have the sizes that the parameters give.
    proof fn sizes_ok(addr: u64, slot: u64, msgsend: u64)
        ensures
            Self::stub(addr, slot).len() == Self::info().stub_size,
            Self::objc_stub(addr, slot, msgsend).len() == Self::info().objc_stub_size,
            Self::thunk(addr, slot).len() == Self::info().thunk_size,
    ;

    /// Whether re-emitting this relocation type in a relocatable output
    /// needs an explicit addend record when its addend is nonzero.
    spec fn addend_record(r_type: u8) -> bool;

    /// Whether re-emitting this relocation type in a relocatable output
    /// needs an explicit addend record when its addend is nonzero.
    fn relocatable_needs_addend(r_type: u8) -> (r: bool)
        ensures
            r == Self::addend_record(r_type),
    ;

    /// How a relocation type uses its target.
    spec fn class_of(r_type: u8) -> RelocClass;

    /// Classifies a relocation type by how it uses its target.
    fn classify_reloc(r_type: u8) -> (r: RelocClass)
        ensures
            r == Self::class_of(r_type),
    ;

    /// True if the GotLoad relocation at `offset` sits on the instruction
    /// shape the relaxation rewrites.
    spec fn relaxable(data: Seq<u8>, offset: u32, r_type: u8) -> bool;

    /// True if the GotLoad relocation at `offset` sits on the instruction
    /// shape the relaxation rewrites.
    fn can_relax_got_load(data: &[u8], offset: u32, r_type: u8) -> (r: bool)
        ensures
            r == Self::relaxable(data@, offset, r_type),
    ;

    /// The relocations that raw records stand for.
    spec fn relocs_of(
        sections: Seq<SectionView>,
        hdr: SectionView,
        data: Seq<u8>,
        rels: Seq<MachRel>,
    ) -> Result<Seq<Reloc>, RelocError>;

    /// Converts raw relocation records of one input section into
    /// [`Reloc`]s. Mach-O encodes addends target-dependently: some are
    /// embedded in the relocated field, some are separate records.
    fn read_relocs(
        sections: &[MachSection],
        hdr: &MachSection,
        file_data: &[u8],
        rels: &[MachRel],
    ) -> (r: Result<Vec<Reloc>, RelocError>)
        requires
            sections.len() < 0x8000_0000,
        ensures
            match r {
                Ok(v) => Self::relocs_of(section_views(sections@), hdr@, file_data@, rels@) == Ok::<
                    Seq<Reloc>,
                    RelocError,
                >(v@),
                Err(e) => Self::relocs_of(section_views(sections@), hdr@, file_data@, rels@)
                    == Err::<Seq<Reloc>, RelocError>(e),
            },
    ;

    /// The bytes of a section after its relocations are applied.
    spec fn applied(
        rels: Seq<ResolvedReloc>,
        base: u64,
        tls_begin: u64,
        bytes: Seq<u8>,
    ) -> Result<Seq<u8>, ApplyError>;

    /// Applies the relocations of one input section to `buf`, its bytes in
    /// the output. `base` is its output address.
    fn apply_relocs(
        rels: &[ResolvedReloc],
        base: u64,
        tls_begin: u64,
        buf: &mut Vec<u8>,
    ) -> (r: Result<(), ApplyError>)
        ensures
            match r {
                Ok(()) => Self::applied(rels@, base, tls_begin, old(buf)@) == Ok::<
                    Seq<u8>,
                    ApplyError,
                >(final(buf)@) && final(buf).len() == old(buf).len(),
                Err(e) => Self::applied(rels@, base, tls_begin, old(buf)@) == Err::<
                    Seq<u8>,
                    ApplyError,
                >(e),
            },
    ;

    /// One __stubs entry: a jump through the slot at `slot`, for an entry
    /// at `addr`.
    spec fn stub(addr: u64, slot: u64) -> Seq<u8>;

    /// Appends one __stubs entry.
    fn push_stub(buf: &mut Vec<u8>, addr: u64, slot: u64)
        ensures
            final(buf)@ == old(buf)@ + Self::stub(addr, slot),
            final(buf).len() == old(buf).len() + Self::info().stub_size,
    ;

    /// One __objc_stubs entry: code that loads the selector from the slot
    /// at `selref` and tail-calls through the slot at `msgsend`.
    spec fn objc_stub(addr: u64, selref: u64, msgsend: u64) -> Seq<u8>;

    /// Appends one __objc_stubs entry.
    fn push_objc_stub(buf: &mut Vec<u8>, addr: u64, selref: u64, msgsend: u64)
        ensures
            final(buf)@ == old(buf)@ + Self::objc_stub(addr, selref, msgsend),
            final(buf).len() == old(buf).len() + Self::info().objc_stub_size,
    ;

    /// One range-extension thunk entry: a jump to `target`, for an entry
    /// at `addr`.
    spec fn thunk(addr: u64, target: u64) -> Seq<u8>;

    /// Appends one range-extension thunk entry.
    fn push_thunk(buf: &mut Vec<u8>, addr: u64, target: u64)
        ensures
            final(buf)@ == old(buf)@ + Self::thunk(addr, target),
            final(buf).len() == old(buf).len() + Self::info().thunk_size,
    ;
}

/// Returns the target name for a Mach-O CPU type, if we know it.
pub fn cputype_name(cputype: u32) -> (r: Option<&'static str>)
    ensures
        match r {
            Some(name) => (cputype == CPU_TYPE_ARM64 && name@ == "arm64"@) || (cputype
                == CPU_TYPE_X86_64 && name@ == "x86_64"@),
            None => cputype != CPU_TYPE_ARM64 && cputype != CPU_TYPE_X86_64,
        },
{
    if cputype == CPU_TYPE_ARM64 {
        Some("arm64")
    } else if cputype == CPU_TYPE_X86_64 {
        Some("x86_64")
    } else {
        None
    }
}

} // verus!
