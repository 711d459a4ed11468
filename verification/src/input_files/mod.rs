//! Input files: object files, dylib stubs and dylib binaries.

pub mod commands;
pub mod dylib;
pub mod dylib_laws;
pub mod eh_frame;
pub mod integrate;
pub mod peek;
pub mod register;
pub mod split;
pub mod split_laws;
pub mod stage;
pub mod strtab;
pub mod unwind;

use crate::input_sections::InputSection;
use crate::macho::consts::S_ATTR_DEBUG;
use crate::macho::{MachSection, NList, SectionView};
use crate::symbol::SymbolId;
use crate::util;
use crate::util::bytes;
use vstd::prelude::*;
use vstd::string::*;

verus! {

/// A relocatable object file.
#[derive(Debug)]
pub struct ObjectFile {
    /// The object's path, or archive(member).
    pub name: Vec<u8>,
    /// For an archive member, the archive's path.
    pub parent: Option<Vec<u8>>,
    /// False for an archive member no live code needs (yet). Dead files'
    /// subsections never reach the output.
    pub is_alive: bool,
    /// Position in input order, for resolution tie-breaking: the earlier
    /// file wins.
    pub priority: u32,
    /// LC_LINKER_OPTION auto-link requests, acted on only if the file is
    /// live.
    pub linker_options: Vec<Vec<Vec<u8>>>,
    /// -hidden-l: this file's external definitions become private
    /// externals.
    pub hidden: bool,
    /// Section headers in ordinal order.
    pub sect_hdrs: Vec<MachSection>,
    /// All of this object's subsections, sorted by input address.
    pub subsecs: Vec<usize>,
    /// The flags word of the object's __objc_imageinfo, if it has one.
    pub objc_image_info: Option<u32>,
    /// True if the object carries DWARF debug info, so the output gets
    /// debug stabs pointing back at it.
    pub has_debug_info: bool,
    /// For a bitcode input, the module handle: the object is a placeholder
    /// that only claims symbols until it is compiled.
    pub lto_module: Option<usize>,
    pub nlists: Vec<NList>,
    /// The symbol slot for each nlist entry.
    pub syms: Vec<SymbolId>,
    /// LC_DATA_IN_CODE entries: (offset in the object, length, kind).
    pub dice: Vec<(u32, u16, u16)>,
    /// LC_LINKER_OPTIMIZATION_HINT entries: (kind, instruction addresses in
    /// the object's address space).
    pub loh: Vec<(u8, Vec<u64>)>,
}

/// A dynamic library, from a .tbd stub or a dylib binary.
#[derive(Debug)]
pub struct DylibFile {
    /// The path the library was loaded from.
    pub path: Vec<u8>,
    pub install_name: Vec<u8>,
    pub current_version: u32,
    pub compatibility_version: u32,
    /// The 1-based ordinal used to refer to this dylib in bind records.
    pub dylib_idx: i32,
    /// Position in input order, for resolution tie-breaking.
    pub priority: u32,
    /// dyld tolerates the library missing at load time.
    pub is_weak: bool,
    /// This image's clients resolve the library's exports through this
    /// image.
    pub is_reexported: bool,
    /// Keep the load command even under -dead_strip_dylibs.
    pub is_needed: bool,
    /// Drop the load command whenever no symbol binds to this dylib, even
    /// without -dead_strip_dylibs.
    pub is_dead_strippable: bool,
    /// App-extension clients may link it.
    pub is_app_extension_safe: bool,
    /// This dylib belongs to the named umbrella and may only be linked by
    /// it or by an allowed client.
    pub sub_framework: Option<Vec<u8>>,
    /// Clients allowed to link this subframework.
    pub sub_clients: Vec<Vec<u8>>,
    pub exports: Vec<Vec<u8>>,
    /// The subset of exports that are thread-local variables.
    pub tlv_exports: Vec<Vec<u8>>,
    /// The subset of exports that are weak definitions.
    pub weak_exports: Vec<Vec<u8>>,
    /// The -bundle_loader executable, which gets no load command.
    pub is_bundle_loader: bool,
}

/// A record from a __compact_unwind section, describing how to unwind the
/// stack through one function.
#[derive(Clone, Copy, Debug, PartialEq, Eq)]
pub struct UnwindRecord {
    /// The input section holding the function.
    pub isec: usize,
    /// The function's offset within `isec`.
    pub input_offset: u32,
    pub code_len: u32,
    pub encoding: u32,
    pub personality: Option<u32>,
    /// The language-specific data area: an input section and an offset
    /// within it.
    pub lsda: Option<(usize, u32)>,
    /// For a record synthesized from DWARF unwind info, the FDE it points
    /// to.
    pub fde: Option<usize>,
}

/// A DWARF Common Information Entry from an object's __eh_frame.
#[derive(Debug)]
pub struct Cie {
    pub obj: u32,
    pub input_addr: u32,
    /// Contents with subtraction pairs already applied.
    pub data: Vec<u8>,
    pub personality: Option<u32>,
    /// Offset of the personality cell within this CIE.
    pub personality_offset: u32,
    /// Size of the LSDA pointer declared by the augmentation, or 0 if
    /// none.
    pub lsda_size: u8,
    pub output_offset: u32,
    pub is_alive: bool,
}

/// A DWARF Frame Description Entry from an object's __eh_frame.
#[derive(Debug)]
pub struct Fde {
    pub obj: u32,
    pub input_addr: u32,
    pub data: Vec<u8>,
    /// Index of the CIE.
    pub cie: usize,
    /// The function the FDE describes.
    pub isec: usize,
    pub func_offset: u32,
    pub code_len: u32,
    pub lsda: Option<(usize, u32)>,
    pub output_offset: u32,
}

/// An object file parsed in isolation: all cross-references are local
/// indices, so staging needs no shared state; integration rebases them
/// into the global arenas.
#[derive(Debug)]
pub struct StagedObject {
    pub name: Vec<u8>,
    pub parent: Option<Vec<u8>>,
    pub alive: bool,
    pub hidden: bool,
    pub priority: u32,
    pub sect_hdrs: Vec<MachSection>,
    pub linker_options: Vec<Vec<Vec<u8>>>,
    pub isecs: Vec<InputSection>,
    pub subsecs: Vec<usize>,
    pub nlists: Vec<NList>,
    pub sym_names: Vec<Vec<u8>>,
    /// The hash of each extern non-stab name (0 otherwise).
    pub sym_hashes: Vec<u64>,
    pub unwind: Vec<UnwindRecord>,
    pub cies: Vec<Cie>,
    pub fdes: Vec<Fde>,
    pub objc_image_info: Option<u32>,
    pub has_debug_info: bool,
    pub dice: Vec<(u32, u16, u16)>,
    pub loh: Vec<(u8, Vec<u64>)>,
}

/// True when the hashes of an object's global names are listed beside them.
pub open spec fn hashes_match(st: StagedObject) -> bool {
    &&& st.sym_names.len() == st.nlists.len()
    &&& st.sym_hashes.len() == st.nlists.len()
    &&& forall|i: int|
        0 <= i < st.nlists.len() && !st.nlists[i].stab() && st.nlists[i].external()
            ==> #[trigger] st.sym_hashes[i] == crate::symbol::xxh3(st.sym_names[i]@)
}

/// The address range of each of the listed subsections.
pub open spec fn extents(isecs: Seq<InputSection>, subsecs: Seq<usize>) -> Seq<(u64, u64)> {
    subsecs.map_values(|id: usize| (isecs[id as int].input_addr, isecs[id as int].size))
}

/// True when the ranges are listed in address order.
pub open spec fn in_address_order(ext: Seq<(u64, u64)>) -> bool {
    forall|i: int, j: int| 0 <= i <= j < ext.len() ==> (#[trigger] ext[i]).0 <= (#[trigger] ext[j]).0
}

/// How many of the first `n` ranges, counted from the back past those that
/// start above it, start at or below `addr`.
pub open spec fn ranges_up_to(ext: Seq<(u64, u64)>, addr: u64, n: int) -> int
    decreases n,
{
    if n <= 0 {
        0
    } else if ext[n - 1].0 <= addr {
        n
    } else {
        ranges_up_to(ext, addr, n - 1)
    }
}

/// The range that holds `addr`, with the offset of `addr` in it: the last
/// range that starts at or below `addr`, if it reaches that far. An empty
/// range holds its own start.
pub open spec fn range_at(ext: Seq<(u64, u64)>, addr: u64) -> Option<(int, u64)> {
    let i = ranges_up_to(ext, addr, ext.len() as int);
    if i == 0 {
        None
    } else {
        let (start, size) = ext[i - 1];
        if addr < start + size || (size == 0 && addr == start) {
            Some((i - 1, (addr - start) as u64))
        } else {
            None
        }
    }
}

/// The subsection that holds `addr`, with the offset of `addr` in it, given
/// the address range of each of the listed subsections.
pub open spec fn subsec_in(ext: Seq<(u64, u64)>, subsecs: Seq<usize>, addr: u64) -> Option<
    (usize, u64),
> {
    match range_at(ext, addr) {
        Some((i, off)) => Some((subsecs[i], off)),
        None => None,
    }
}

/// The subsection that holds `addr`, with the offset of `addr` in it.
pub open spec fn subsec_at(
    isecs: Seq<InputSection>,
    subsecs: Seq<usize>,
    addr: u64,
) -> Option<(usize, u64)> {
    subsec_in(extents(isecs, subsecs), subsecs, addr)
}

/// True when every listed subsection exists.
pub open spec fn subsecs_exist(isecs: Seq<InputSection>, subsecs: Seq<usize>) -> bool {
    forall|i: int| 0 <= i < subsecs.len() ==> (#[trigger] subsecs[i]) < isecs.len()
}

proof fn lemma_ranges_up_to(ext: Seq<(u64, u64)>, addr: u64, n: int, i: int)
    requires
        0 <= i <= n <= ext.len(),
        i == 0 || ext[i - 1].0 <= addr,
        forall|j: int| i <= j < n ==> addr < (#[trigger] ext[j]).0,
    ensures
        ranges_up_to(ext, addr, n) == i,
    decreases n,
{
    if n > i {
        assert(addr < ext[n - 1].0);
        lemma_ranges_up_to(ext, addr, n - 1, i);
    }
}

/// Finds the subsection containing `addr` among `subsecs` (sorted by input
/// address), returning it with the offset within it.
pub fn find_subsec(isecs: &[InputSection], subsecs: &[usize], addr: u64) -> (r: Option<
    (usize, u64),
>)
    requires
        subsecs_exist(isecs@, subsecs@),
        in_address_order(extents(isecs@, subsecs@)),
    ensures
        r == subsec_at(isecs@, subsecs@, addr),
        r is Some ==> r.unwrap().0 < isecs.len(),
{
    let ghost ext = extents(isecs@, subsecs@);
    let mut lo: usize = 0;
    let mut hi: usize = subsecs.len();
    while lo < hi
        invariant
            lo <= hi <= subsecs.len(),
            ext == extents(isecs@, subsecs@),
            subsecs_exist(isecs@, subsecs@),
            in_address_order(ext),
            forall|j: int| 0 <= j < lo ==> (#[trigger] ext[j]).0 <= addr,
            forall|j: int| hi <= j < ext.len() ==> addr < (#[trigger] ext[j]).0,
        decreases hi - lo,
    {
        let mid: usize = lo + (hi - lo) / 2;
        assert(ext[mid as int].0 == isecs[subsecs[mid as int] as int].input_addr);
        if isecs[subsecs[mid]].input_addr <= addr {
            lo = mid + 1;
        } else {
            hi = mid;
        }
    }
    proof {
        lemma_ranges_up_to(ext, addr, ext.len() as int, lo as int);
    }
    if lo == 0 {
        return None;
    }
    let id: usize = subsecs[lo - 1];
    let start: u64 = isecs[id].input_addr;
    let size: u64 = isecs[id].size;
    proof {
        assert(ext[lo - 1] == (start, size));
    }
    if addr - start < size || (size == 0 && addr == start) {
        Some((id, addr - start))
    } else {
        None
    }
}

/// A subsection that does not overlap its successor is the only one to
/// hold its addresses: looking up a start address plus an offset within
/// the piece gives the piece and the offset back.
pub proof fn lemma_range_at_inverse(ext: Seq<(u64, u64)>, i: int, off: u64)
    requires
        in_address_order(ext),
        0 <= i < ext.len(),
        off < ext[i].1,
        ext[i].0 + off <= u64::MAX,
        forall|j: int| i < j < ext.len() ==> ext[i].0 + ext[i].1 <= (#[trigger] ext[j]).0,
    ensures
        range_at(ext, (ext[i].0 + off) as u64) == Some((i, off)),
{
    lemma_ranges_up_to(ext, (ext[i].0 + off) as u64, ext.len() as int, i + 1);
}

/// True for sections that don't become part of the output image: debug
/// sections are consumed by other tools, and __LD by the linker itself. A
/// relocatable output keeps its DWARF.
pub open spec fn discarded(hdr: SectionView, keep_debug: bool) -> bool {
    if keep_debug {
        hdr.segname == "__LD".spec_bytes()
    } else {
        hdr.flags & S_ATTR_DEBUG != 0 || hdr.segname == "__DWARF".spec_bytes() || hdr.segname
            == "__LD".spec_bytes()
    }
}

/// Returns true for sections that don't become part of the output image.
pub fn is_discarded_section(hdr: &MachSection, keep_debug: bool) -> (r: bool)
    ensures
        r == discarded(hdr@, keep_debug),
{
    let is_ld: bool = bytes::same(hdr.segname.as_slice(), "__LD".as_bytes());
    if keep_debug {
        return is_ld;
    }
    hdr.flags & S_ATTR_DEBUG != 0 || bytes::same(hdr.segname.as_slice(), "__DWARF".as_bytes())
        || is_ld
}

/// True when the section is the named one.
pub open spec fn is_section(hdr: SectionView, segname: Seq<u8>, sectname: Seq<u8>) -> bool {
    hdr.segname == segname && hdr.sectname == sectname
}

/// True when the section is the named one.
pub fn section_is(hdr: &MachSection, segname: &str, sectname: &str) -> (r: bool)
    ensures
        r == is_section(hdr@, segname.spec_bytes(), sectname.spec_bytes()),
{
    bytes::same(hdr.segname.as_slice(), segname.as_bytes()) && bytes::same(
        hdr.sectname.as_slice(),
        sectname.as_bytes(),
    )
}

/// Decodes the ULEB128 value at `pos`, if it ends within `fuel` bytes.
fn decode_uleb(data: &[u8], pos: usize, fuel: u32) -> (r: Option<(u128, usize)>)
    requires
        fuel <= 10,
        pos <= data.len(),
    ensures
        match r {
            Some((v, next)) => util::uleb_decode(data@, pos as int, fuel as nat) == Some(
                (v as nat, next as int),
            ) && pos < next <= data.len() && v < vstd::arithmetic::power2::pow2((7 * fuel) as nat),
            None => util::uleb_decode(data@, pos as int, fuel as nat) is None,
        },
    decreases fuel,
{
    if fuel == 0 || pos >= data.len() {
        return None;
    }
    proof {
        vstd::arithmetic::power2::lemma2_to64();
        vstd::arithmetic::power2::lemma2_to64_rest();
        vstd::arithmetic::power2::lemma_pow2_adds(7, (7 * (fuel - 1)) as nat);
        vstd::arithmetic::power2::lemma_pow2_pos((7 * (fuel - 1)) as nat);
        if fuel < 10 {
            vstd::arithmetic::power2::lemma_pow2_strictly_increases((7 * fuel) as nat, 70);
        }
        vstd::arithmetic::power2::lemma_pow2_adds(64, 6);
    }
    let byte: u8 = data[pos];
    if byte < 128 {
        return Some((byte as u128, pos + 1));
    }
    match decode_uleb(data, pos + 1, fuel - 1) {
        Some((v, next)) => {
            let low: u128 = byte as u128 - 128;
            Some((low + 128 * v, next))
        },
        None => None,
    }
}

/// The value of the ULEB128 encoding at `pos`, cut to 64 bits, and the
/// position behind it.
pub open spec fn uleb_at(data: Seq<u8>, pos: int) -> Option<(u64, int)> {
    match util::uleb_decode(data, pos, 10) {
        Some((v, next)) => Some((bytes::word64(v as int), next)),
        None => None,
    }
}

/// Reads the ULEB128 value at `pos`, if it is not cut off.
pub fn try_uleb_at(data: &[u8], pos: usize) -> (r: Option<(u64, usize)>)
    requires
        pos <= data.len(),
    ensures
        match r {
            Some((v, next)) => uleb_at(data@, pos as int) == Some((v, next as int)) && pos < next
                <= data.len(),
            None => uleb_at(data@, pos as int) is None,
        },
{
    match decode_uleb(data, pos, 10) {
        Some((v, next)) => {
            proof {
                reveal(bytes::word64);
            }
            Some(((v % 0x1_0000_0000_0000_0000) as u64, next))
        },
        None => None,
    }
}

/// Reads the ULEB128 value at `pos` and moves `pos` behind it.
pub fn read_uleb_at(data: &[u8], pos: &mut usize) -> (r: u64)
    requires
        *old(pos) <= data.len(),
        uleb_at(data@, *old(pos) as int) is Some,
    ensures
        uleb_at(data@, *old(pos) as int) == Some((r, *final(pos) as int)),
{
    match try_uleb_at(data, *pos) {
        Some((v, next)) => {
            *pos = next;
            v
        },
        None => 0,
    }
}

/// Reading a written value gives the value back and stops behind it.
pub proof fn lemma_uleb_at_round_trip(v: u64, before: Seq<u8>, after: Seq<u8>)
    ensures
        uleb_at(before + util::uleb(v as nat) + after, before.len() as int) == Some(
            (v, (before.len() + util::uleb(v as nat).len()) as int),
        ),
{
    util::lemma_uleb_u64(v, before, after);
    reveal(bytes::word64);
}

} // verus!
