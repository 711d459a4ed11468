//! Mach-O file format records.

pub mod consts;

use crate::util::bytes;
use consts::{N_EXT, N_PEXT, N_STAB, N_TYPE, N_UNDF, SECTION_TYPE};
use vstd::prelude::*;

verus! {

pub const MACH_HEADER_SIZE: usize = 32;

pub const SEGMENT_COMMAND_SIZE: usize = 72;

pub const MACH_SECTION_SIZE: usize = 80;

pub const NLIST_SIZE: usize = 16;

pub const MACH_REL_SIZE: usize = 8;

pub const SYMTAB_COMMAND_SIZE: usize = 24;

pub const DYSYMTAB_COMMAND_SIZE: usize = 80;

pub const BUILD_VERSION_COMMAND_SIZE: usize = 24;

/// An X.Y.Z version as load commands record it.
pub open spec fn version_word(major: u32, minor: u32, patch: u32) -> u32 {
    (major << 16u32) | (minor << 8u32) | patch
}

/// Packs an X.Y.Z version as load commands record it.
pub fn encode_version(major: u32, minor: u32, patch: u32) -> (r: u32)
    ensures
        r == version_word(major, minor, patch),
        major < 0x1_0000 && minor < 0x100 && patch < 0x100 ==> r == major * 0x1_0000 + minor
            * 0x100 + patch,
{
    assert(major < 0x1_0000 && minor < 0x100 && patch < 0x100 ==> (major << 16u32) | (minor
        << 8u32) | patch == major * 0x1_0000 + minor * 0x100 + patch) by (bit_vector);
    (major << 16u32) | (minor << 8u32) | patch
}

/// A fixed 16-byte name field: the name cut to 16 bytes and zero-padded.
pub open spec fn name16(name: Seq<u8>) -> Seq<u8> {
    if name.len() >= 16 {
        name.take(16)
    } else {
        name + bytes::zeros(16 - name.len())
    }
}

/// Appends a fixed 16-byte name field.
pub fn push_name16(buf: &mut Vec<u8>, name: &[u8])
    ensures
        final(buf)@ == old(buf)@ + name16(name@),
        final(buf).len() == old(buf).len() + 16,
{
    if name.len() >= 16 {
        let head: Vec<u8> = bytes::copy_range(name, 0, 16);
        bytes::append(buf, head.as_slice());
        assert(head@ =~= name16(name@));
    } else {
        bytes::append(buf, name);
        bytes::push_zeros(buf, 16 - name.len());
        assert(buf@ =~= old(buf)@ + name16(name@));
    }
}

/// The name in the 16-byte field at `off`: what stands before the first
/// NUL.
pub open spec fn name16_at(s: Seq<u8>, off: int) -> Seq<u8> {
    bytes::until_nul(s.subrange(off, off + 16))
}

/// Reads the name in the 16-byte field at `off`.
pub fn get_name16(s: &[u8], off: usize) -> (r: Vec<u8>)
    requires
        off + 16 <= s.len(),
    ensures
        r@ == name16_at(s@, off as int),
        r.len() <= 16,
{
    let field: Vec<u8> = bytes::copy_range(s, off, off + 16);
    let end: usize = bytes::find_byte(field.as_slice(), 0, 0);
    let r = bytes::copy_range(field.as_slice(), 0, end);
    assert(field@.subrange(0, end as int) =~= field@.take(end as int));
    r
}

/// The header at the start of a Mach-O file.
#[derive(Clone, Copy, Debug, PartialEq, Eq, Structural)]
pub struct MachHeader {
    pub magic: u32,
    pub cputype: u32,
    pub cpusubtype: u32,
    pub filetype: u32,
    pub ncmds: u32,
    pub sizeofcmds: u32,
    pub flags: u32,
    pub reserved: u32,
}

impl MachHeader {
    /// The header's fields, in file order.
    pub open spec fn words(self) -> Seq<u32> {
        seq![
            self.magic,
            self.cputype,
            self.cpusubtype,
            self.filetype,
            self.ncmds,
            self.sizeofcmds,
            self.flags,
            self.reserved,
        ]
    }

    /// The header's 32 bytes.
    pub open spec fn encoded(self) -> Seq<u8> {
        bytes::le32s(self.words())
    }

    /// The header that starts `s`.
    pub open spec fn at(s: Seq<u8>, off: int) -> MachHeader {
        MachHeader {
            magic: bytes::u32_at(s, off),
            cputype: bytes::u32_at(s, off + 4),
            cpusubtype: bytes::u32_at(s, off + 8),
            filetype: bytes::u32_at(s, off + 12),
            ncmds: bytes::u32_at(s, off + 16),
            sizeofcmds: bytes::u32_at(s, off + 20),
            flags: bytes::u32_at(s, off + 24),
            reserved: bytes::u32_at(s, off + 28),
        }
    }

    /// Reads the header at `off`.
    pub fn read(s: &[u8], off: usize) -> (r: MachHeader)
        requires
            off + 32 <= s.len(),
        ensures
            r == MachHeader::at(s@, off as int),
    {
        MachHeader {
            magic: bytes::get32(s, off),
            cputype: bytes::get32(s, off + 4),
            cpusubtype: bytes::get32(s, off + 8),
            filetype: bytes::get32(s, off + 12),
            ncmds: bytes::get32(s, off + 16),
            sizeofcmds: bytes::get32(s, off + 20),
            flags: bytes::get32(s, off + 24),
            reserved: bytes::get32(s, off + 28),
        }
    }

    /// Appends the header's bytes.
    pub fn push_to(&self, buf: &mut Vec<u8>)
        ensures
            final(buf)@ == old(buf)@ + self.encoded(),
            final(buf).len() == old(buf).len() + 32,
    {
        let words: [u32; 8] = [
            self.magic,
            self.cputype,
            self.cpusubtype,
            self.filetype,
            self.ncmds,
            self.sizeofcmds,
            self.flags,
            self.reserved,
        ];
        bytes::push32s(buf, words.as_slice());
        assert(words@ =~= self.words());
    }

    /// Reading a written header gives the header back.
    pub proof fn lemma_round_trip(self)
        ensures
            MachHeader::at(self.encoded(), 0) == self,
    {
        let w = self.words();
        bytes::lemma_le32s_at(w, 0);
        bytes::lemma_le32s_at(w, 1);
        bytes::lemma_le32s_at(w, 2);
        bytes::lemma_le32s_at(w, 3);
        bytes::lemma_le32s_at(w, 4);
        bytes::lemma_le32s_at(w, 5);
        bytes::lemma_le32s_at(w, 6);
        bytes::lemma_le32s_at(w, 7);
    }
}

/// An LC_SEGMENT_64 command, without its section records.
#[derive(Debug)]
pub struct SegmentCommand {
    pub cmd: u32,
    pub cmdsize: u32,
    pub segname: Vec<u8>,
    pub vmaddr: u64,
    pub vmsize: u64,
    pub fileoff: u64,
    pub filesize: u64,
    pub maxprot: u32,
    pub initprot: u32,
    pub nsects: u32,
    pub flags: u32,
}

/// What a segment command says.
#[verifier::ext_equal]
pub struct SegmentCommandView {
    pub cmd: u32,
    pub cmdsize: u32,
    pub segname: Seq<u8>,
    pub vmaddr: u64,
    pub vmsize: u64,
    pub fileoff: u64,
    pub filesize: u64,
    pub maxprot: u32,
    pub initprot: u32,
    pub nsects: u32,
    pub flags: u32,
}

impl View for SegmentCommand {
    type V = SegmentCommandView;

    open spec fn view(&self) -> SegmentCommandView {
        SegmentCommandView {
            cmd: self.cmd,
            cmdsize: self.cmdsize,
            segname: self.segname@,
            vmaddr: self.vmaddr,
            vmsize: self.vmsize,
            fileoff: self.fileoff,
            filesize: self.filesize,
            maxprot: self.maxprot,
            initprot: self.initprot,
            nsects: self.nsects,
            flags: self.flags,
        }
    }
}

impl SegmentCommandView {
    /// The command's 72 bytes.
    pub open spec fn encoded(self) -> Seq<u8> {
        bytes::le32s(seq![self.cmd, self.cmdsize]) + name16(self.segname) + bytes::le64(
            self.vmaddr,
        ) + bytes::le64(self.vmsize) + bytes::le64(self.fileoff) + bytes::le64(self.filesize)
            + bytes::le32s(seq![self.maxprot, self.initprot, self.nsects, self.flags])
    }
}

impl SegmentCommand {
    /// Appends the command's bytes.
    pub fn push_to(&self, buf: &mut Vec<u8>)
        ensures
            final(buf)@ == old(buf)@ + self@.encoded(),
            final(buf).len() == old(buf).len() + 72,
    {
        let head: [u32; 2] = [self.cmd, self.cmdsize];
        bytes::push32s(buf, head.as_slice());
        push_name16(buf, self.segname.as_slice());
        bytes::push64(buf, self.vmaddr);
        bytes::push64(buf, self.vmsize);
        bytes::push64(buf, self.fileoff);
        bytes::push64(buf, self.filesize);
        let tail: [u32; 4] = [self.maxprot, self.initprot, self.nsects, self.flags];
        bytes::push32s(buf, tail.as_slice());
        proof {
            assert(head@ =~= seq![self.cmd, self.cmdsize]);
            assert(tail@ =~= seq![self.maxprot, self.initprot, self.nsects, self.flags]);
            assert(buf@ =~= old(buf)@ + self@.encoded());
        }
    }
}

/// A section record.
#[derive(Debug)]
pub struct MachSection {
    /// The fields of both names, the section's first: the names and what
    /// follows their NULs.
    pub raw: Vec<u8>,
    pub sectname: Vec<u8>,
    pub segname: Vec<u8>,
    pub addr: u64,
    pub size: u64,
    pub offset: u32,
    pub p2align: u32,
    pub reloff: u32,
    pub nreloc: u32,
    pub flags: u32,
    pub reserved1: u32,
    pub reserved2: u32,
    pub reserved3: u32,
}

/// What a section record says.
#[verifier::ext_equal]
pub struct SectionView {
    pub raw: Seq<u8>,
    pub sectname: Seq<u8>,
    pub segname: Seq<u8>,
    pub addr: u64,
    pub size: u64,
    pub offset: u32,
    pub p2align: u32,
    pub reloff: u32,
    pub nreloc: u32,
    pub flags: u32,
    pub reserved1: u32,
    pub reserved2: u32,
    pub reserved3: u32,
}

impl View for MachSection {
    type V = SectionView;

    open spec fn view(&self) -> SectionView {
        SectionView {
            raw: self.raw@,
            sectname: self.sectname@,
            segname: self.segname@,
            addr: self.addr,
            size: self.size,
            offset: self.offset,
            p2align: self.p2align,
            reloff: self.reloff,
            nreloc: self.nreloc,
            flags: self.flags,
            reserved1: self.reserved1,
            reserved2: self.reserved2,
            reserved3: self.reserved3,
        }
    }
}

impl SectionView {
    /// The record's 80 bytes.
    pub open spec fn encoded(self) -> Seq<u8> {
        name16(self.sectname) + name16(self.segname) + bytes::le64(self.addr) + bytes::le64(
            self.size,
        ) + bytes::le32s(
            seq![
                self.offset,
                self.p2align,
                self.reloff,
                self.nreloc,
                self.flags,
                self.reserved1,
                self.reserved2,
                self.reserved3,
            ],
        )
    }

    /// The record at `off`.
    pub open spec fn at(s: Seq<u8>, off: int) -> SectionView {
        SectionView {
            raw: s.subrange(off, off + 32),
            sectname: name16_at(s, off),
            segname: name16_at(s, off + 16),
            addr: bytes::u64_at(s, off + 32),
            size: bytes::u64_at(s, off + 40),
            offset: bytes::u32_at(s, off + 48),
            p2align: bytes::u32_at(s, off + 52),
            reloff: bytes::u32_at(s, off + 56),
            nreloc: bytes::u32_at(s, off + 60),
            flags: bytes::u32_at(s, off + 64),
            reserved1: bytes::u32_at(s, off + 68),
            reserved2: bytes::u32_at(s, off + 72),
            reserved3: bytes::u32_at(s, off + 76),
        }
    }

    /// The section's type, the low byte of its flags.
    pub open spec fn kind(self) -> u32 {
        self.flags & SECTION_TYPE
    }
}

impl MachSection {
    /// Reads the record at `off`.
    pub fn read(s: &[u8], off: usize) -> (r: MachSection)
        requires
            off + 80 <= s.len(),
        ensures
            r@ == SectionView::at(s@, off as int),
    {
        MachSection {
            raw: bytes::copy_range(s, off, off + 32),
            sectname: get_name16(s, off),
            segname: get_name16(s, off + 16),
            addr: bytes::get64(s, off + 32),
            size: bytes::get64(s, off + 40),
            offset: bytes::get32(s, off + 48),
            p2align: bytes::get32(s, off + 52),
            reloff: bytes::get32(s, off + 56),
            nreloc: bytes::get32(s, off + 60),
            flags: bytes::get32(s, off + 64),
            reserved1: bytes::get32(s, off + 68),
            reserved2: bytes::get32(s, off + 72),
            reserved3: bytes::get32(s, off + 76),
        }
    }

    /// Appends the record's bytes.
    pub fn push_to(&self, buf: &mut Vec<u8>)
        ensures
            final(buf)@ == old(buf)@ + self@.encoded(),
            final(buf).len() == old(buf).len() + 80,
    {
        push_name16(buf, self.sectname.as_slice());
        push_name16(buf, self.segname.as_slice());
        bytes::push64(buf, self.addr);
        bytes::push64(buf, self.size);
        let tail: [u32; 8] = [
            self.offset,
            self.p2align,
            self.reloff,
            self.nreloc,
            self.flags,
            self.reserved1,
            self.reserved2,
            self.reserved3,
        ];
        bytes::push32s(buf, tail.as_slice());
        proof {
            assert(tail@ =~= seq![
                self.offset,
                self.p2align,
                self.reloff,
                self.nreloc,
                self.flags,
                self.reserved1,
                self.reserved2,
                self.reserved3,
            ]);
            assert(buf@ =~= old(buf)@ + self@.encoded());
        }
    }

    /// The section's type, the low byte of its flags.
    pub fn section_type(&self) -> (r: u32)
        ensures
            r == self@.kind(),
    {
        self.flags & SECTION_TYPE
    }

    /// A copy of the record.
    pub fn duplicate(&self) -> (r: MachSection)
        ensures
            r@ == self@,
    {
        MachSection {
            raw: bytes::to_vec(self.raw.as_slice()),
            sectname: bytes::to_vec(self.sectname.as_slice()),
            segname: bytes::to_vec(self.segname.as_slice()),
            addr: self.addr,
            size: self.size,
            offset: self.offset,
            p2align: self.p2align,
            reloff: self.reloff,
            nreloc: self.nreloc,
            flags: self.flags,
            reserved1: self.reserved1,
            reserved2: self.reserved2,
            reserved3: self.reserved3,
        }
    }
}

/// The fields of two names, the section's first.
pub open spec fn names32(sectname: Seq<u8>, segname: Seq<u8>) -> Seq<u8> {
    name16(sectname) + name16(segname)
}

/// Encodes the fields of two names.
pub fn encode_names(sectname: &[u8], segname: &[u8]) -> (r: Vec<u8>)
    ensures
        r@ == names32(sectname@, segname@),
{
    let mut r: Vec<u8> = Vec::new();
    push_name16(&mut r, sectname);
    push_name16(&mut r, segname);
    assert(r@ =~= names32(sectname@, segname@));
    r
}

/// A symbol table entry.
#[derive(Clone, Copy, Debug, PartialEq, Eq, Structural)]
pub struct NList {
    pub n_strx: u32,
    pub n_type: u8,
    pub n_sect: u8,
    pub n_desc: u16,
    pub n_value: u64,
}

impl NList {
    /// The entry's 16 bytes.
    pub open spec fn encoded(self) -> Seq<u8> {
        bytes::le32(self.n_strx) + seq![self.n_type, self.n_sect] + bytes::le16(self.n_desc)
            + bytes::le64(self.n_value)
    }

    /// The entry at `off`.
    pub open spec fn at(s: Seq<u8>, off: int) -> NList {
        NList {
            n_strx: bytes::u32_at(s, off),
            n_type: s[off + 4],
            n_sect: s[off + 5],
            n_desc: bytes::u16_at(s, off + 6),
            n_value: bytes::u64_at(s, off + 8),
        }
    }

    /// Reads the entry at `off`.
    pub fn read(s: &[u8], off: usize) -> (r: NList)
        requires
            off + 16 <= s.len(),
        ensures
            r == NList::at(s@, off as int),
    {
        NList {
            n_strx: bytes::get32(s, off),
            n_type: s[off + 4],
            n_sect: s[off + 5],
            n_desc: bytes::get16(s, off + 6),
            n_value: bytes::get64(s, off + 8),
        }
    }

    /// Appends the entry's bytes.
    pub fn push_to(&self, buf: &mut Vec<u8>)
        ensures
            final(buf)@ == old(buf)@ + self.encoded(),
            final(buf).len() == old(buf).len() + 16,
    {
        bytes::push32(buf, self.n_strx);
        buf.push(self.n_type);
        buf.push(self.n_sect);
        bytes::push16(buf, self.n_desc);
        bytes::push64(buf, self.n_value);
        assert(buf@ =~= old(buf)@ + self.encoded());
    }

    /// Reading a written entry gives the entry back.
    pub proof fn lemma_round_trip(self)
        ensures
            self.encoded().len() == 16,
            NList::at(self.encoded(), 0) == self,
    {
        let e = self.encoded();
        reveal(bytes::u16_at);
        reveal(bytes::u32_at);
        reveal(bytes::u64_at);
        bytes::lemma_le32_round_trip(self.n_strx);
        bytes::lemma_le16_round_trip(self.n_desc);
        bytes::lemma_le64_round_trip(self.n_value);
        assert(bytes::u32_at(e, 0) == bytes::u32_at(bytes::le32(self.n_strx), 0));
        assert(bytes::u16_at(e, 6) == bytes::u16_at(bytes::le16(self.n_desc), 0));
        let v = bytes::le64(self.n_value);
        assert(bytes::u32_at(e, 8) == bytes::u32_at(v, 0));
        assert(bytes::u32_at(e, 12) == bytes::u32_at(v, 4));
    }

    /// True of a debugging entry.
    pub open spec fn stab(self) -> bool {
        self.n_type & N_STAB != 0
    }

    /// True of an entry that other files see.
    pub open spec fn external(self) -> bool {
        self.n_type & N_EXT != 0
    }

    /// True of an entry that is external only within the output.
    pub open spec fn private_external(self) -> bool {
        self.n_type & N_PEXT != 0
    }

    /// What the entry defines.
    pub open spec fn kind(self) -> u8 {
        self.n_type & N_TYPE
    }

    /// True of a tentative definition.
    pub open spec fn common(self) -> bool {
        self.kind() == N_UNDF && self.external() && self.n_value != 0
    }

    /// True of a debugging entry.
    pub fn is_stab(&self) -> (r: bool)
        ensures
            r == self.stab(),
    {
        self.n_type & N_STAB != 0
    }

    /// True of an entry that other files see.
    pub fn is_extern(&self) -> (r: bool)
        ensures
            r == self.external(),
    {
        self.n_type & N_EXT != 0
    }

    /// True of an entry that is external only within the output.
    pub fn is_private_extern(&self) -> (r: bool)
        ensures
            r == self.private_external(),
    {
        self.n_type & N_PEXT != 0
    }

    /// What the entry defines.
    pub fn n_type(&self) -> (r: u8)
        ensures
            r == self.kind(),
    {
        self.n_type & N_TYPE
    }

    /// True of a tentative definition.
    pub fn is_common(&self) -> (r: bool)
        ensures
            r == self.common(),
    {
        self.n_type() == N_UNDF && self.is_extern() && self.n_value != 0
    }
}

/// A relocation record.
#[derive(Clone, Copy, Debug, PartialEq, Eq, Structural)]
pub struct MachRel {
    pub r_address: u32,
    pub bits: u32,
}

impl MachRel {
    /// The record's 8 bytes.
    pub open spec fn encoded(self) -> Seq<u8> {
        bytes::le32(self.r_address) + bytes::le32(self.bits)
    }

    /// The record at `off`.
    pub open spec fn at(s: Seq<u8>, off: int) -> MachRel {
        MachRel { r_address: bytes::u32_at(s, off), bits: bytes::u32_at(s, off + 4) }
    }

    /// Reads the record at `off`.
    pub fn read(s: &[u8], off: usize) -> (r: MachRel)
        requires
            off + 8 <= s.len(),
        ensures
            r == MachRel::at(s@, off as int),
    {
        MachRel { r_address: bytes::get32(s, off), bits: bytes::get32(s, off + 4) }
    }

    /// Appends the record's bytes.
    pub fn push_to(&self, buf: &mut Vec<u8>)
        ensures
            final(buf)@ == old(buf)@ + self.encoded(),
            final(buf).len() == old(buf).len() + 8,
    {
        bytes::push32(buf, self.r_address);
        bytes::push32(buf, self.bits);
        assert(buf@ =~= old(buf)@ + self.encoded());
    }

    /// The symbol index or section ordinal, in the low 24 bits.
    pub open spec fn symnum(self) -> u32 {
        self.bits % 0x100_0000
    }

    /// True when the field is relative to its own address.
    pub open spec fn pcrel(self) -> bool {
        self.bits / 0x100_0000 % 2 == 1
    }

    /// The base-2 logarithm of the field's size.
    pub open spec fn p2size(self) -> u32 {
        self.bits / 0x200_0000 % 4
    }

    /// True when the target is a symbol, not a section.
    pub open spec fn external(self) -> bool {
        self.bits / 0x800_0000 % 2 == 1
    }

    /// The relocation type, in the top 4 bits.
    pub open spec fn kind(self) -> u8 {
        (self.bits / 0x1000_0000) as u8
    }

    /// The symbol index or section ordinal.
    pub fn r_symbolnum(&self) -> (r: u32)
        ensures
            r == self.symnum(),
            r < 0x100_0000,
    {
        self.bits % 0x100_0000
    }

    /// True when the field is relative to its own address.
    pub fn is_pcrel(&self) -> (r: bool)
        ensures
            r == self.pcrel(),
    {
        self.bits / 0x100_0000 % 2 == 1
    }

    /// The base-2 logarithm of the field's size.
    pub fn r_length(&self) -> (r: u32)
        ensures
            r == self.p2size(),
            r < 4,
    {
        self.bits / 0x200_0000 % 4
    }

    /// True when the target is a symbol, not a section.
    pub fn is_extern(&self) -> (r: bool)
        ensures
            r == self.external(),
    {
        self.bits / 0x800_0000 % 2 == 1
    }

    /// The relocation type.
    pub fn r_type(&self) -> (r: u8)
        ensures
            r == self.kind(),
            r < 16,
    {
        (self.bits / 0x1000_0000) as u8
    }

    /// Packs a record's fields.
    pub open spec fn packed(
        r_address: u32,
        symnum: u32,
        pcrel: bool,
        p2size: u32,
        external: bool,
        kind: u8,
    ) -> MachRel {
        MachRel {
            r_address,
            bits: (symnum + (if pcrel {
                0x100_0000int
            } else {
                0
            }) + p2size * 0x200_0000 + (if external {
                0x800_0000int
            } else {
                0
            }) + kind * 0x1000_0000) as u32,
        }
    }

    /// Packs a record's fields.
    pub fn pack(
        r_address: u32,
        symnum: u32,
        pcrel: bool,
        p2size: u32,
        external: bool,
        kind: u8,
    ) -> (r: MachRel)
        requires
            symnum < 0x100_0000,
            p2size < 4,
            kind < 16,
        ensures
            r == MachRel::packed(r_address, symnum, pcrel, p2size, external, kind),
    {
        let pc: u32 = if pcrel {
            0x100_0000
        } else {
            0
        };
        let ext: u32 = if external {
            0x800_0000
        } else {
            0
        };
        MachRel {
            r_address,
            bits: symnum + pc + p2size * 0x200_0000 + ext + kind as u32 * 0x1000_0000,
        }
    }

    /// Unpacking a packed record gives its fields back.
    pub proof fn lemma_pack_round_trip(
        r_address: u32,
        symnum: u32,
        pcrel: bool,
        p2size: u32,
        external: bool,
        kind: u8,
    )
        requires
            symnum < 0x100_0000,
            p2size < 4,
            kind < 16,
        ensures
            ({
                let r = MachRel::packed(r_address, symnum, pcrel, p2size, external, kind);
                &&& r.symnum() == symnum
                &&& r.pcrel() == pcrel
                &&& r.p2size() == p2size
                &&& r.external() == external
                &&& r.kind() == kind
            }),
    {
    }
}

} // verus!
