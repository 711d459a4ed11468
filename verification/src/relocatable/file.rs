//! The bytes of a relocatable output.
use super::extras::{ExtraSection, ExtraView, RelocatableError};
use super::place::{Extended, ExtendedView};
use crate::arch::Arch;
use crate::args::Args;
use crate::macho::consts::{
    LC_BUILD_VERSION, LC_DYSYMTAB, LC_SEGMENT_64, LC_SYMTAB, MH_MAGIC_64, MH_OBJECT,
    MH_SUBSECTIONS_VIA_SYMBOLS,
};
use crate::macho::{MachHeader, MachRel, MachSection, NList, SectionView, SegmentCommand};
use crate::macho::SegmentCommandView;
use crate::output_chunks::header::{Chunk, ChunkView};
use crate::output_chunks::string_table::{Named, NamedView};
use crate::util::bytes;
use vstd::prelude::*;

verus! {

/// The names of the first `n` entries, each with a NUL.
pub open spec fn names_blob(es: Seq<NamedView>, n: int) -> Seq<u8>
    decreases n,
{
    if n <= 0 {
        Seq::empty()
    } else {
        names_blob(es, n - 1) + es[n - 1].name.push(0)
    }
}

/// The string table: a space with its NUL, the names, and zeros up to a
/// multiple of eight bytes.
pub open spec fn strings_of(es: Seq<NamedView>) -> Seq<u8> {
    bytes::padded8(seq![0x20u8, 0u8] + names_blob(es, es.len() as int))
}

/// An entry with the offset of its name.
pub open spec fn entry_of(es: Seq<NamedView>, i: int) -> NList {
    NList { n_strx: (2 + names_blob(es, i).len()) as u32, ..es[i].ent }
}

/// The bytes of the first `n` entries.
pub open spec fn entries_to(es: Seq<NamedView>, n: int) -> Seq<u8>
    decreases n,
{
    if n <= 0 {
        Seq::empty()
    } else {
        entries_to(es, n - 1) + entry_of(es, n - 1).encoded()
    }
}

/// The bytes of the first `n` records.
pub open spec fn rel_bytes(r: Seq<MachRel>, n: int) -> Seq<u8>
    decreases n,
{
    if n <= 0 {
        Seq::empty()
    } else {
        rel_bytes(r, n - 1) + r[n - 1].encoded()
    }
}

/// The bytes of the first `n` lists of records.
pub open spec fn all_rel_bytes(rels: Seq<Seq<MachRel>>, n: int) -> Seq<u8>
    decreases n,
{
    if n <= 0 {
        Seq::empty()
    } else {
        all_rel_bytes(rels, n - 1) + rel_bytes(rels[n - 1], rels[n - 1].len() as int)
    }
}

/// What a relocatable output is assembled from.
pub struct Parts {
    /// The merged sections.
    pub list: Vec<usize>,
    /// The sections behind them.
    pub extras: Vec<ExtraSection>,
    /// The contents of all sections.
    pub placed: Extended,
    /// The relocations of all sections.
    pub rels: Vec<Vec<MachRel>>,
    /// The symbol table.
    pub entries: Vec<Named>,
    pub nlocal: usize,
    pub nextdef: usize,
    /// The commands of the auto-link requests, and their number.
    pub requests: Vec<u8>,
    pub nrequests: usize,
}

/// The parts, as mathematical values.
#[verifier::ext_equal]
pub struct PartsView {
    pub list: Seq<usize>,
    pub extras: Seq<ExtraView>,
    pub placed: ExtendedView,
    pub rels: Seq<Seq<MachRel>>,
    pub entries: Seq<NamedView>,
    pub nlocal: int,
    pub nextdef: int,
    pub requests: Seq<u8>,
    pub nrequests: int,
}

impl View for Parts {
    type V = PartsView;

    open spec fn view(&self) -> PartsView {
        PartsView {
            list: self.list@,
            extras: super::extras::extra_views(self.extras@),
            placed: self.placed@,
            rels: super::place::record_views(self.rels@),
            entries: crate::output_chunks::string_table::named_views(self.entries@),
            nlocal: self.nlocal as int,
            nextdef: self.nextdef as int,
            requests: self.requests@,
            nrequests: self.nrequests as int,
        }
    }
}

impl PartsView {
    /// The number of sections.
    pub open spec fn nsects(self) -> int {
        (self.list.len() + self.extras.len()) as int
    }

    /// The size of the segment command with its section records.
    pub open spec fn segment_size(self) -> int {
        72 + 80 * self.nsects()
    }

    /// The size of all load commands.
    pub open spec fn commands_size(self) -> int {
        self.segment_size() + 24 + self.requests.len() + 24 + 80
    }

    /// Where the contents start in the file.
    pub open spec fn start(self) -> int {
        32 + self.commands_size()
    }

    /// Where the relocations of a section start in the file.
    pub open spec fn reloff(self, i: int) -> int {
        self.start() + bytes::padded8(self.placed.image).len() + all_rel_bytes(self.rels, i).len()
    }

    /// Where the symbol table starts in the file.
    pub open spec fn symoff(self) -> int {
        self.reloff(self.rels.len() as int)
    }

    /// Where the string table starts in the file.
    pub open spec fn stroff(self) -> int {
        self.symoff() + 16 * self.entries.len()
    }

    /// What follows the load commands: contents, relocations, symbols and
    /// strings.
    pub open spec fn body(self) -> Seq<u8> {
        bytes::padded8(self.placed.image) + all_rel_bytes(self.rels, self.rels.len() as int)
            + entries_to(self.entries, self.entries.len() as int) + strings_of(self.entries)
    }

    /// The record of the `i`th merged section.
    pub open spec fn merged_record(self, chunks: Seq<ChunkView>, i: int) -> SectionView {
        let c = chunks[self.list[i] as int];
        SectionView {
            raw: crate::macho::names32(c.hdr.sectname, c.hdr.segname),
            sectname: c.hdr.sectname,
            segname: c.hdr.segname,
            addr: c.hdr.addr,
            size: c.hdr.size,
            offset: if c.hdr.zerofill() {
                0
            } else {
                (self.start() + c.hdr.addr) as u32
            },
            p2align: c.hdr.p2align,
            reloff: if self.rels[i].len() == 0 {
                0
            } else {
                self.reloff(i) as u32
            },
            nreloc: self.rels[i].len() as u32,
            flags: c.hdr.flags,
            reserved1: 0,
            reserved2: 0,
            reserved3: 0,
        }
    }

    /// The record of the `i`th section behind the merged ones.
    pub open spec fn extra_record(self, i: int) -> SectionView {
        let x = self.extras[i];
        SectionView {
            raw: crate::macho::names32(x.sectname, x.segname),
            sectname: x.sectname,
            segname: x.segname,
            addr: self.placed.places[i].0,
            size: x.data.len() as u64,
            offset: (self.start() + self.placed.places[i].1) as u32,
            p2align: 3,
            reloff: self.reloff(self.list.len() + i) as u32,
            nreloc: self.rels[self.list.len() + i].len() as u32,
            flags: x.flags,
            reserved1: 0,
            reserved2: 0,
            reserved3: 0,
        }
    }

    /// The records of the first `n` sections.
    pub open spec fn records_to(self, chunks: Seq<ChunkView>, n: int) -> Seq<u8>
        decreases n,
    {
        if n <= 0 {
            Seq::empty()
        } else {
            self.records_to(chunks, n - 1) + (if n - 1 < self.list.len() {
                self.merged_record(chunks, n - 1)
            } else {
                self.extra_record(n - 1 - self.list.len())
            }).encoded()
        }
    }

    /// The file header.
    pub open spec fn header<E: Arch>(self) -> MachHeader {
        MachHeader {
            magic: MH_MAGIC_64,
            cputype: E::info().cputype,
            cpusubtype: E::info().cpusubtype,
            filetype: MH_OBJECT,
            ncmds: (4 + self.nrequests) as u32,
            sizeofcmds: self.commands_size() as u32,
            flags: MH_SUBSECTIONS_VIA_SYMBOLS,
            reserved: 0,
        }
    }

    /// The single nameless segment.
    pub open spec fn segment(self) -> SegmentCommandView {
        SegmentCommandView {
            cmd: LC_SEGMENT_64,
            cmdsize: self.segment_size() as u32,
            segname: Seq::empty(),
            vmaddr: 0,
            vmsize: self.placed.vmsize,
            fileoff: self.start() as u64,
            filesize: self.placed.image.len() as u64,
            maxprot: 7,
            initprot: 7,
            nsects: self.nsects() as u32,
            flags: 0,
        }
    }

    /// The commands behind the requests: where symbols and strings are, and
    /// which symbols are local, defined and open.
    pub open spec fn symbol_words(self) -> Seq<u32> {
        seq![
            LC_SYMTAB,
            24,
            self.symoff() as u32,
            self.entries.len() as u32,
            self.stroff() as u32,
            strings_of(self.entries).len() as u32,
            LC_DYSYMTAB,
            80,
            0,
            self.nlocal as u32,
            self.nlocal as u32,
            self.nextdef as u32,
            (self.nlocal + self.nextdef) as u32,
            (self.entries.len() - self.nlocal - self.nextdef) as u32,
            0,
            0,
            0,
            0,
            0,
            0,
            0,
            0,
            0,
            0,
            0,
            0,
        ]
    }

    /// The header and the load commands.
    pub open spec fn head<E: Arch>(self, args: Args, chunks: Seq<ChunkView>) -> Seq<u8> {
        self.header::<E>().encoded() + self.segment().encoded() + self.records_to(
            chunks,
            self.nsects(),
        ) + bytes::le32s(
            seq![
                LC_BUILD_VERSION,
                24,
                args.sw.platform,
                args.sw.platform_minos,
                args.sw.platform_sdk,
                0,
            ],
        ) + self.requests + bytes::le32s(self.symbol_words())
    }

    /// The whole file, unless it is too large for its 32-bit fields.
    pub open spec fn file<E: Arch>(self, args: Args, chunks: Seq<ChunkView>) -> Result<
        Seq<u8>,
        RelocatableError,
    > {
        if self.start() + self.body().len() > u32::MAX {
            Err(RelocatableError::TooLarge)
        } else {
            Ok(self.head::<E>(args, chunks) + self.body())
        }
    }
}

/// Encodes lists of records. Returns where each list starts, and the end.
fn encode_rels(rels: &Vec<Vec<MachRel>>, buf: &mut Vec<u8>) -> (offs: Vec<usize>)
    ensures
        final(buf)@ == old(buf)@ + all_rel_bytes(
            super::place::record_views(rels@),
            rels.len() as int,
        ),
        offs.len() == rels.len() + 1,
        forall|i: int|
            0 <= i <= rels.len() ==> #[trigger] offs[i] == old(buf).len() + all_rel_bytes(
                super::place::record_views(rels@),
                i,
            ).len(),
{
    let ghost rv = super::place::record_views(rels@);
    let ghost start = buf@;
    let mut offs: Vec<usize> = Vec::new();
    offs.push(buf.len());
    assert(start + Seq::<u8>::empty() =~= start);
    let mut i: usize = 0;
    while i < rels.len()
        invariant
            i <= rels.len(),
            rv == super::place::record_views(rels@),
            offs.len() == i + 1,
            buf@ == start + all_rel_bytes(rv, i as int),
            forall|j: int|
                0 <= j <= i ==> #[trigger] offs[j] == start.len() + all_rel_bytes(rv, j).len(),
        decreases rels.len() - i,
    {
        let ghost before = buf@;
        assert(rv[i as int] == rels[i as int]@);
        assert(before + Seq::<u8>::empty() =~= before);
        let mut k: usize = 0;
        while k < rels[i].len()
            invariant
                i < rels.len(),
                k <= rels[i as int].len(),
                buf@ == before + rel_bytes(rels[i as int]@, k as int),
            decreases rels[i as int].len() - k,
        {
            rels[i][k].push_to(buf);
            proof {
                bytes::lemma_assoc(
                    before,
                    rel_bytes(rels[i as int]@, k as int),
                    rels[i as int][k as int].encoded(),
                );
            }
            k += 1;
        }
        proof {
            bytes::lemma_assoc(
                start,
                all_rel_bytes(rv, i as int),
                rel_bytes(rv[i as int], rv[i as int].len() as int),
            );
        }
        offs.push(buf.len());
        i += 1;
    }
    offs
}

/// Encodes the symbol table and the string table. `None` when a name's
/// offset does not fit in 32 bits.
fn encode_symbols(es: &Vec<Named>, buf: &mut Vec<u8>) -> (r: Option<Vec<u8>>)
    ensures
        ({
            let ev = crate::output_chunks::string_table::named_views(es@);
            match r {
                Some(s) => final(buf)@ == old(buf)@ + entries_to(ev, ev.len() as int) && s@
                    == strings_of(ev),
                None => strings_of(ev).len() > u32::MAX,
            }
        }),
{
    let ghost ev = crate::output_chunks::string_table::named_views(es@);
    let ghost start = buf@;
    let ghost lead = seq![0x20u8, 0u8];
    let mut strings: Vec<u8> = Vec::new();
    strings.push(0x20);
    strings.push(0);
    assert(strings@ =~= lead + names_blob(ev, 0));
    assert(start + Seq::<u8>::empty() =~= start);
    let mut i: usize = 0;
    while i < es.len()
        invariant
            i <= es.len(),
            lead == seq![0x20u8, 0u8],
            ev == crate::output_chunks::string_table::named_views(es@),
            strings@ == lead + names_blob(ev, i as int),
            buf@ == start + entries_to(ev, i as int),
        decreases es.len() - i,
    {
        assert(ev[i as int] == es[i as int]@);
        if strings.len() > u32::MAX as usize {
            proof {
                lemma_blob_grows(ev, i as int, ev.len() as int);
            }
            return None;
        }
        let mut ent: NList = es[i].ent;
        ent.n_strx = strings.len() as u32;
        assert(ent == entry_of(ev, i as int));
        ent.push_to(buf);
        proof {
            bytes::lemma_assoc(start, entries_to(ev, i as int), ent.encoded());
        }
        let ghost before = strings@;
        bytes::append(&mut strings, es[i].name.as_slice());
        strings.push(0);
        assert(strings@ =~= lead + names_blob(ev, i + 1));
        i += 1;
    }
    bytes::pad8(&mut strings);
    Some(strings)
}

proof fn lemma_blob_grows(es: Seq<NamedView>, a: int, b: int)
    requires
        a <= b,
    ensures
        names_blob(es, a).len() <= names_blob(es, b).len(),
    decreases b - a,
{
    if a < b && b > 0 {
        lemma_blob_grows(es, a, b - 1);
    }
}

proof fn lemma_entries_len(es: Seq<NamedView>, n: int)
    requires
        0 <= n,
    ensures
        entries_to(es, n).len() == 16 * n,
    decreases n,
{
    if n > 0 {
        lemma_entries_len(es, n - 1);
        entry_of(es, n - 1).lemma_round_trip();
    }
}

proof fn lemma_rel_bytes_len(r: Seq<MachRel>, n: int)
    requires
        0 <= n,
    ensures
        rel_bytes(r, n).len() == 8 * n,
    decreases n,
{
    if n > 0 {
        lemma_rel_bytes_len(r, n - 1);
    }
}

proof fn lemma_rels_cover(rels: Seq<Seq<MachRel>>, i: int, n: int)
    requires
        0 <= i < n,
    ensures
        all_rel_bytes(rels, i).len() + 8 * rels[i].len() <= all_rel_bytes(rels, n).len(),
        all_rel_bytes(rels, n - 1).len() <= all_rel_bytes(rels, n).len(),
    decreases n,
{
    if i == n - 1 {
        lemma_rel_bytes_len(rels[i], rels[i].len() as int);
    } else {
        lemma_rels_cover(rels, i, n - 1);
    }
}

/// What each part of a small enough file fits into.
spec fn fits(p: PartsView) -> bool {
    p.start() + p.body().len() <= u32::MAX
}

proof fn lemma_fits(p: PartsView)
    requires
        fits(p),
    ensures
        p.start() <= u32::MAX,
        p.symoff() <= u32::MAX,
        p.stroff() <= u32::MAX,
        p.entries.len() <= u32::MAX,
        strings_of(p.entries).len() <= u32::MAX,
        p.placed.image.len() <= u32::MAX,
        p.body().len() == bytes::padded8(p.placed.image).len() + all_rel_bytes(
            p.rels,
            p.rels.len() as int,
        ).len() + 16 * p.entries.len() + strings_of(p.entries).len(),
        forall|i: int|
            0 <= i < p.rels.len() ==> #[trigger] p.reloff(i) <= u32::MAX && p.rels[i].len()
                <= u32::MAX,
{
    lemma_entries_len(p.entries, p.entries.len() as int);
    assert forall|i: int| 0 <= i < p.rels.len() implies #[trigger] p.reloff(i) <= u32::MAX
        && p.rels[i].len() <= u32::MAX by {
        lemma_rels_cover(p.rels, i, p.rels.len() as int);
    }
}

/// Encodes the record of a merged section.
fn push_merged_record(
    p: &Parts,
    chunks: &Vec<Chunk>,
    i: usize,
    start: u32,
    reloff: u32,
    buf: &mut Vec<u8>,
)
    requires
        i < p.list.len(),
        p.list[i as int] < chunks.len(),
        i < p.rels.len(),
        start == p@.start(),
        reloff == p@.reloff(i as int),
        p.rels[i as int].len() <= u32::MAX,
    ensures
        final(buf)@ == old(buf)@ + p@.merged_record(
            crate::output_chunks::header::chunk_views(chunks@),
            i as int,
        ).encoded(),
{
    let c: &Chunk = &chunks[p.list[i]];
    let nreloc: usize = p.rels[i].len();
    let ghost cv = crate::output_chunks::header::chunk_views(chunks@);
    assert(cv[p.list[i as int] as int] == c@);
    assert(p@.rels[i as int] == p.rels[i as int]@);
    let sect = MachSection {
        raw: crate::macho::encode_names(c.hdr.sectname.as_slice(), c.hdr.segname.as_slice()),
        sectname: bytes::to_vec(c.hdr.sectname.as_slice()),
        segname: bytes::to_vec(c.hdr.segname.as_slice()),
        addr: c.hdr.addr,
        size: c.hdr.size,
        offset: if c.hdr.is_zerofill() {
            0
        } else {
            offset_word(start, c.hdr.addr)
        },
        p2align: c.hdr.p2align,
        reloff: if nreloc == 0 {
            0
        } else {
            reloff
        },
        nreloc: nreloc as u32,
        flags: c.hdr.flags,
        reserved1: 0,
        reserved2: 0,
        reserved3: 0,
    };
    assert(sect@ =~= p@.merged_record(cv, i as int));
    sect.push_to(buf);
}

/// A file offset cut to its field.
fn offset_word(start: u32, addr: u64) -> (r: u32)
    ensures
        r == (start + addr) as u32,
{
    let wide: u128 = start as u128 + addr as u128;
    wide as u32
}

/// Encodes the record of a section behind the merged ones.
fn push_extra_record(p: &Parts, i: usize, start: u32, reloff: u32, buf: &mut Vec<u8>)
    requires
        i < p.extras.len(),
        i < p.placed.places.len(),
        p.list.len() + i < p.rels.len(),
        start == p@.start(),
        reloff == p@.reloff(p.list.len() + i),
        p.rels[p.list.len() + i].len() <= u32::MAX,
    ensures
        final(buf)@ == old(buf)@ + p@.extra_record(i as int).encoded(),
{
    let x: &ExtraSection = &p.extras[i];
    assert(p@.extras[i as int] == x@);
    let k: usize = p.list.len() + i;
    assert(p@.rels[k as int] == p.rels[k as int]@);
    let place: (u64, u64) = p.placed.places[i];
    let sect = MachSection {
        raw: crate::macho::encode_names(x.sectname.as_slice(), x.segname.as_slice()),
        sectname: bytes::to_vec(x.sectname.as_slice()),
        segname: bytes::to_vec(x.segname.as_slice()),
        addr: place.0,
        size: x.data.len() as u64,
        offset: offset_word(start, place.1),
        p2align: 3,
        reloff,
        nreloc: p.rels[k].len() as u32,
        flags: x.flags,
        reserved1: 0,
        reserved2: 0,
        reserved3: 0,
    };
    assert(sect@ =~= p@.extra_record(i as int));
    sect.push_to(buf);
}

/// Encodes the records of all sections. `offs` tells where the relocations
/// of each start behind the load commands.
fn push_section_records(
    p: &Parts,
    chunks: &Vec<Chunk>,
    start: u32,
    offs: &Vec<usize>,
    buf: &mut Vec<u8>,
)
    requires
        fits(p@),
        start == p@.start(),
        forall|i: int| 0 <= i < p.list.len() ==> (#[trigger] p.list[i]) < chunks.len(),
        p.placed.places.len() == p.extras.len(),
        p.rels.len() == p.list.len() + p.extras.len(),
        offs.len() == p.rels.len() + 1,
        forall|i: int|
            0 <= i < p.rels.len() ==> p@.start() + #[trigger] offs[i] == p@.reloff(i),
    ensures
        final(buf)@ == old(buf)@ + p@.records_to(
            crate::output_chunks::header::chunk_views(chunks@),
            p@.nsects(),
        ),
{
    let ghost cv = crate::output_chunks::header::chunk_views(chunks@);
    let ghost before = buf@;
    assert(before + Seq::<u8>::empty() =~= before);
    proof {
        lemma_fits(p@);
        assert(p@.rels.len() == p.rels.len());
        assert(p@.extras.len() == p.extras.len());
    }
    let m: usize = p.list.len();
    let mut i: usize = 0;
    while i < m
        invariant
            i <= m,
            m == p.list.len(),
            fits(p@),
            start == p@.start(),
            cv == crate::output_chunks::header::chunk_views(chunks@),
            forall|i: int| 0 <= i < p.list.len() ==> (#[trigger] p.list[i]) < chunks.len(),
            p.rels.len() == p.list.len() + p.extras.len(),
            p@.rels.len() == p.rels.len(),
            offs.len() == p.rels.len() + 1,
            forall|i: int|
                0 <= i < p.rels.len() ==> p@.start() + #[trigger] offs[i] == p@.reloff(i),
            forall|i: int|
                0 <= i < p.rels.len() ==> #[trigger] p@.reloff(i) <= u32::MAX && p@.rels[i].len()
                    <= u32::MAX,
            buf@ == before + p@.records_to(cv, i as int),
        decreases m - i,
    {
        proof {
            assert(p@.start() + offs[i as int] == p@.reloff(i as int));
            assert(p@.rels[i as int] == p.rels[i as int]@);
        }
        push_merged_record(p, chunks, i, start, start + offs[i] as u32, buf);
        proof {
            bytes::lemma_assoc(
                before,
                p@.records_to(cv, i as int),
                p@.merged_record(cv, i as int).encoded(),
            );
        }
        i += 1;
    }
    let mut j: usize = 0;
    while j < p.extras.len()
        invariant
            j <= p.extras.len(),
            m == p.list.len(),
            fits(p@),
            start == p@.start(),
            p.placed.places.len() == p.extras.len(),
            p.rels.len() == p.list.len() + p.extras.len(),
            p@.rels.len() == p.rels.len(),
            p@.list.len() == m,
            offs.len() == p.rels.len() + 1,
            forall|i: int|
                0 <= i < p.rels.len() ==> p@.start() + #[trigger] offs[i] == p@.reloff(i),
            forall|i: int|
                0 <= i < p.rels.len() ==> #[trigger] p@.reloff(i) <= u32::MAX && p@.rels[i].len()
                    <= u32::MAX,
            buf@ == before + p@.records_to(cv, m + j),
        decreases p.extras.len() - j,
    {
        proof {
            assert(p@.start() + offs[m + j] == p@.reloff(m + j));
            assert(p@.rels[m + j] == p.rels[m + j]@);
        }
        push_extra_record(p, j, start, start + offs[m + j] as u32, buf);
        proof {
            bytes::lemma_assoc(
                before,
                p@.records_to(cv, m + j),
                p@.extra_record(j as int).encoded(),
            );
        }
        j += 1;
    }
}

/// What follows the load commands, and where its pieces start.
struct Body {
    bytes: Vec<u8>,
    reloffs: Vec<usize>,
    symoff: usize,
    stroff: usize,
}

impl Body {
    /// True when this is the body of the given parts.
    spec fn is_of(self, p: PartsView) -> bool {
        &&& self.bytes@ == p.body()
        &&& self.reloffs.len() == p.rels.len() + 1
        &&& forall|i: int|
            0 <= i < p.rels.len() ==> p.start() + #[trigger] self.reloffs[i] == p.reloff(i)
        &&& p.start() + self.symoff == p.symoff()
        &&& p.start() + self.stroff == p.stroff()
        &&& self.bytes.len() == self.stroff + strings_of(p.entries).len()
    }
}

/// Encodes what follows the load commands. `None` when it is too large.
fn build_body(p: &Parts) -> (r: Option<Body>)
    ensures
        match r {
            Some(b) => b.is_of(p@),
            None => p@.body().len() > u32::MAX,
        },
{
    let ghost pv = p@;
    proof {
        lemma_entries_len(pv.entries, pv.entries.len() as int);
    }
    let mut body: Vec<u8> = bytes::to_vec(p.placed.image.as_slice());
    bytes::pad8(&mut body);
    let reloffs: Vec<usize> = encode_rels(&p.rels, &mut body);
    let symoff: usize = body.len();
    let strings: Vec<u8> = match encode_symbols(&p.entries, &mut body) {
        Some(s) => s,
        None => {
            return None;
        },
    };
    let stroff: usize = body.len();
    bytes::append(&mut body, strings.as_slice());
    assert(body@ =~= pv.body());
    proof {
        assert(pv.rels.len() == p.rels.len());
        assert forall|i: int| 0 <= i < pv.rels.len() implies pv.start() + #[trigger] reloffs[i]
            == pv.reloff(i) by {}
    }
    Some(Body { bytes: body, reloffs, symoff, stroff })
}

/// Encodes the commands that describe the symbol table.
fn push_symbol_commands(p: &Parts, body: &Body, start: u32, buf: &mut Vec<u8>)
    requires
        fits(p@),
        body.is_of(p@),
        start == p@.start(),
        p.nlocal + p.nextdef <= p.entries.len(),
    ensures
        final(buf)@ == old(buf)@ + bytes::le32s(p@.symbol_words()),
{
    let ghost pv = p@;
    proof {
        lemma_fits(pv);
        assert(pv.entries.len() == p.entries.len());
    }
    let nlocal: u32 = p.nlocal as u32;
    let nextdef: u32 = p.nextdef as u32;
    let words: [u32; 26] = [
        LC_SYMTAB,
        24,
        start + body.symoff as u32,
        p.entries.len() as u32,
        start + body.stroff as u32,
        (body.bytes.len() - body.stroff) as u32,
        LC_DYSYMTAB,
        80,
        0,
        nlocal,
        nlocal,
        nextdef,
        nlocal + nextdef,
        p.entries.len() as u32 - nlocal - nextdef,
        0,
        0,
        0,
        0,
        0,
        0,
        0,
        0,
        0,
        0,
        0,
        0,
    ];
    assert(words@ =~= pv.symbol_words());
    bytes::push32s(buf, words.as_slice());
}

/// Encodes the header and the segment command.
fn push_segment<E: Arch>(p: &Parts, start: u32) -> (buf: Vec<u8>)
    requires
        fits(p@),
        start == p@.start(),
        p.list.len() <= 255,
        p.extras.len() <= 3,
        p.nrequests <= p.requests.len(),
    ensures
        buf@ == p@.header::<E>().encoded() + p@.segment().encoded(),
{
    let ghost pv = p@;
    proof {
        lemma_fits(pv);
        assert(pv.extras.len() == p.extras.len());
    }
    let info = E::get_info();
    let nsects: u32 = (p.list.len() + p.extras.len()) as u32;
    let mut buf: Vec<u8> = Vec::new();
    let hdr = MachHeader {
        magic: MH_MAGIC_64,
        cputype: info.cputype,
        cpusubtype: info.cpusubtype,
        filetype: MH_OBJECT,
        ncmds: 4 + p.nrequests as u32,
        sizeofcmds: start - 32,
        flags: MH_SUBSECTIONS_VIA_SYMBOLS,
        reserved: 0,
    };
    assert(hdr == pv.header::<E>());
    hdr.push_to(&mut buf);
    let seg = SegmentCommand {
        cmd: LC_SEGMENT_64,
        cmdsize: 72 + 80 * nsects,
        segname: Vec::new(),
        vmaddr: 0,
        vmsize: p.placed.vmsize,
        fileoff: start as u64,
        filesize: p.placed.image.len() as u64,
        maxprot: 7,
        initprot: 7,
        nsects,
        flags: 0,
    };
    assert(seg@ =~= pv.segment());
    seg.push_to(&mut buf);
    assert(buf@ =~= pv.header::<E>().encoded() + pv.segment().encoded());
    buf
}

/// Assembles the file.
pub fn assemble<E: Arch>(p: &Parts, args: &Args, chunks: &Vec<Chunk>) -> (r: Result<
    Vec<u8>,
    RelocatableError,
>)
    requires
        forall|i: int| 0 <= i < p.list.len() ==> (#[trigger] p.list[i]) < chunks.len(),
        p.list.len() <= 255,
        p.extras.len() <= 3,
        p.placed.places.len() == p.extras.len(),
        p.rels.len() == p.list.len() + p.extras.len(),
        p.nlocal + p.nextdef <= p.entries.len(),
        p.nrequests <= p.requests.len(),
    ensures
        ({
            let want = p@.file::<E>(*args, crate::output_chunks::header::chunk_views(chunks@));
            match r {
                Ok(v) => want == Ok::<Seq<u8>, RelocatableError>(v@),
                Err(e) => want == Err::<Seq<u8>, RelocatableError>(e),
            }
        }),
{
    let ghost cv = crate::output_chunks::header::chunk_views(chunks@);
    let ghost pv = p@;
    proof {
        assert(pv.rels.len() == p.rels.len());
        assert(pv.extras.len() == p.extras.len());
    }
    let body: Body = match build_body(p) {
        Some(b) => b,
        None => {
            return Err(RelocatableError::TooLarge);
        },
    };
    let nsects: usize = p.list.len() + p.extras.len();
    let commands: u128 = 72 + 80 * nsects as u128 + 24 + p.requests.len() as u128 + 104;
    if 32 + commands + body.bytes.len() as u128 > u32::MAX as u128 {
        return Err(RelocatableError::TooLarge);
    }
    let start: u32 = 32 + commands as u32;
    let mut buf: Vec<u8> = push_segment::<E>(p, start);
    push_section_records(p, chunks, start, &body.reloffs, &mut buf);
    let version: [u32; 6] = [
        LC_BUILD_VERSION,
        24,
        args.sw.platform,
        args.sw.platform_minos,
        args.sw.platform_sdk,
        0,
    ];
    bytes::push32s(&mut buf, version.as_slice());
    assert(version@ =~= seq![
        LC_BUILD_VERSION,
        24u32,
        args.sw.platform,
        args.sw.platform_minos,
        args.sw.platform_sdk,
        0u32,
    ]);
    bytes::append(&mut buf, p.requests.as_slice());
    push_symbol_commands(p, &body, start, &mut buf);
    assert(buf@ == pv.head::<E>(*args, cv));
    bytes::append(&mut buf, body.bytes.as_slice());
    Ok(buf)
}

/// A name stands behind those before it, and a NUL behind it.
proof fn lemma_name_in_blob(es: Seq<NamedView>, i: int, n: int)
    requires
        0 <= i < n,
    ensures
        ({
            let from = names_blob(es, i).len() as int;
            let name = es[i].name;
            &&& from + name.len() < names_blob(es, n).len()
            &&& names_blob(es, n).subrange(from, from + name.len()) == name
            &&& names_blob(es, n)[from + name.len()] == 0
        }),
    decreases n,
{
    let from = names_blob(es, i).len() as int;
    let name = es[i].name;
    if i == n - 1 {
        assert(names_blob(es, n).subrange(from, from + name.len()) =~= name);
    } else {
        lemma_name_in_blob(es, i, n - 1);
        assert(names_blob(es, n).subrange(from, from + name.len()) =~= names_blob(
            es,
            n - 1,
        ).subrange(from, from + name.len()));
    }
}

/// Reading the string table at an entry's offset gives the entry's name
/// back, for every entry whose name holds no NUL.
pub proof fn lemma_names_found(es: Seq<NamedView>, i: int)
    requires
        0 <= i < es.len(),
        strings_of(es).len() <= u32::MAX,
        forall|k: int| 0 <= k < es[i].name.len() ==> (#[trigger] es[i].name[k]) != 0,
    ensures
        crate::input_files::strtab::name_at(strings_of(es), entry_of(es, i).n_strx) == es[i].name,
{
    lemma_name_in_blob(es, i, es.len() as int);
    let name = es[i].name;
    let b = names_blob(es, es.len() as int);
    let from = names_blob(es, i).len() as int;
    let t = strings_of(es);
    assert(t.len() >= 2 + b.len());
    let tail = t.skip(2 + from);
    assert forall|j: int| 0 <= j < name.len() implies #[trigger] tail[j] == name[j] by {
        assert(b.subrange(from, from + name.len())[j] == b[from + j]);
        assert(t[2 + (from + j)] == b[from + j]);
    }
    assert(t[2 + (from + name.len())] == b[from + name.len()]);
    assert(tail[name.len() as int] == 0);
    assert forall|j: int| 0 <= j < name.len() implies (#[trigger] tail[j]) != 0 by {
        assert(name[j] != 0);
    }
    crate::output_chunks::string_table::lemma_nul_at(tail, 0, name.len() as int);
    assert(bytes::until_nul(tail) =~= name);
}

} // verus!
