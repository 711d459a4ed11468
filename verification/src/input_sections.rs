//! Input sections and relocations.
use vstd::prelude::*;

verus! {

/// What a relocation refers to.
#[derive(Clone, Copy, Debug, PartialEq, Eq, Structural)]
pub enum RelocTarget {
    /// An index into the owning object's symbol list.
    Sym(u32),
    /// A subsection. While relocations are being read this is an index
    /// into the object's section header list; staging rewrites it to an
    /// index into the subsection arena.
    Section(u32),
}

/// Marks a packed target as a subsection.
pub const TARGET_SECTION: u32 = 0x8000_0000;

impl RelocTarget {
    /// The index of the target.
    pub open spec fn index(self) -> u32 {
        match self {
            RelocTarget::Sym(i) => i,
            RelocTarget::Section(i) => i,
        }
    }

    /// The target packed into one word: the index in the low 31 bits, and
    /// the top bit set for a subsection.
    pub open spec fn packed(self) -> u32 {
        match self {
            RelocTarget::Sym(i) => i,
            RelocTarget::Section(i) => (i + TARGET_SECTION) as u32,
        }
    }

    /// The target that a packed word stands for.
    pub open spec fn unpacked(word: u32) -> RelocTarget {
        if word >= TARGET_SECTION {
            RelocTarget::Section((word - TARGET_SECTION) as u32)
        } else {
            RelocTarget::Sym(word)
        }
    }

    /// Packs the target into one word.
    pub fn pack(self) -> (r: u32)
        requires
            self.index() < TARGET_SECTION,
        ensures
            r == self.packed(),
            RelocTarget::unpacked(r) == self,
    {
        match self {
            RelocTarget::Sym(i) => i,
            RelocTarget::Section(i) => i + TARGET_SECTION,
        }
    }
}

/// A relocation in a form independent of the raw Mach-O records: the
/// addend is explicit, and the target is a symbol or a section.
#[derive(Clone, Copy, Debug, PartialEq, Eq, Structural)]
pub struct Reloc {
    /// Offset within the containing section.
    pub offset: u32,
    pub r_type: u8,
    /// Size in bytes of the relocated field.
    pub size: u8,
    pub is_pcrel: bool,
    /// True if the previous record is a SUBTRACTOR paired with this one.
    pub is_subtracted: bool,
    /// The target, packed into one word. Read through `target()`, write
    /// through `set_target()` or `RelocTarget::pack()`.
    pub target: u32,
    pub addend: i64,
    /// For a branch that may be out of range: the offset of a
    /// range-extension thunk entry within the output section. u32::MAX
    /// when the branch needs no thunk.
    pub thunk_off: u32,
}

impl Reloc {
    /// What the relocation refers to.
    pub open spec fn refers_to(self) -> RelocTarget {
        RelocTarget::unpacked(self.target)
    }

    /// What the relocation refers to.
    pub fn target(&self) -> (r: RelocTarget)
        ensures
            r == self.refers_to(),
            r.index() < TARGET_SECTION,
    {
        if self.target >= TARGET_SECTION {
            RelocTarget::Section(self.target - TARGET_SECTION)
        } else {
            RelocTarget::Sym(self.target)
        }
    }

    /// Makes the relocation refer to `t`.
    pub fn set_target(&mut self, t: RelocTarget)
        requires
            t.index() < TARGET_SECTION,
        ensures
            final(self).refers_to() == t,
            *final(self) == (Reloc { target: t.packed(), ..*old(self) }),
    {
        self.target = t.pack();
    }
}

/// Sentinel for `InputSection::replacement`: no surviving copy.
pub const NO_REPLACEMENT: u32 = u32::MAX;

/// Sentinel for an index that is not set.
pub const UNSET: u32 = u32::MAX;

/// The output offset of a subsection that has no place yet.
pub const UNPLACED: u64 = 0xffff_ffff;

/// A subsection of an input object file's section.
///
/// Mach-O linking granularity is the subsection: each section is split at
/// its symbols, so that unreferenced pieces can be dropped.
#[derive(Debug)]
pub struct InputSection {
    /// Index of the object file this section came from, or `UNSET` for a
    /// synthetic section with no object.
    pub obj: u32,
    /// Index of the containing section's header, in its object or in the
    /// table of synthetic headers.
    pub shndx: u32,
    pub p2align: u8,
    /// This subsection's address in the object's address space.
    pub input_addr: u64,
    pub size: u64,
    /// The subsection's bytes; empty for a zero-fill or empty section.
    pub data: Vec<u8>,
    /// This subsection's relocations, with offsets relative to it.
    pub relocs: Vec<Reloc>,
    /// The output section chunk this section is appended to, or `UNSET`.
    pub osec: u32,
    /// Offset from the start of the output section.
    pub output_offset: u64,
    pub is_alive: bool,
    /// For a copy merged with an identical one, the surviving copy's
    /// index, or `NO_REPLACEMENT`.
    pub replacement: u32,
    /// This subsection's compact-unwind records: a range in the list of
    /// all of them.
    pub unwind_offset: u32,
    pub nunwind: u32,
}

/// What a subsection holds, as mathematical values.
#[verifier::ext_equal]
pub struct IsecView {
    pub obj: u32,
    pub shndx: u32,
    pub p2align: u8,
    pub input_addr: u64,
    pub size: u64,
    pub data: Seq<u8>,
    pub relocs: Seq<Reloc>,
    pub osec: u32,
    pub output_offset: u64,
    pub is_alive: bool,
    pub replacement: u32,
    pub unwind_offset: u32,
    pub nunwind: u32,
}

impl View for InputSection {
    type V = IsecView;

    open spec fn view(&self) -> IsecView {
        IsecView {
            obj: self.obj,
            shndx: self.shndx,
            p2align: self.p2align,
            input_addr: self.input_addr,
            size: self.size,
            data: self.data@,
            relocs: self.relocs@,
            osec: self.osec,
            output_offset: self.output_offset,
            is_alive: self.is_alive,
            replacement: self.replacement,
            unwind_offset: self.unwind_offset,
            nunwind: self.nunwind,
        }
    }
}

/// What a list of subsections holds.
pub open spec fn isec_views(isecs: Seq<InputSection>) -> Seq<IsecView> {
    isecs.map_values(|s: InputSection| s@)
}

/// The address range of each subsection.
pub open spec fn isec_extents(isecs: Seq<IsecView>) -> Seq<(u64, u64)> {
    isecs.map_values(|s: IsecView| (s.input_addr, s.size))
}

} // verus!
