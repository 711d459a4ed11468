//! Everything about one link, from parsed arguments to output chunks.
use crate::arch::Arch;
use crate::args::Args;
use crate::input_files::DylibFile;
use crate::input_sections::{InputSection, Reloc, RelocTarget, UNPLACED, UNSET};
use crate::inputs::{resolve_isec, Inputs};
use crate::macho::consts::{
    BIND_SPECIAL_DYLIB_FLAT_LOOKUP, BIND_SPECIAL_DYLIB_MAIN_EXECUTABLE, CPU_TYPE_ARM64,
    PLATFORM_MACOS, S_THREAD_LOCAL_REGULAR, S_THREAD_LOCAL_ZEROFILL,
};
use crate::macho::encode_version;
use crate::output_chunks::header::{Chunk, OutputSegment};
use crate::symbol::{Origin, SymAux, Symbol, SymbolTable, NONE, NO_IDX};
use crate::util::{bytes, text};
use vstd::prelude::*;

verus! {

/// The synthetic slots that symbols were given.
#[derive(Debug)]
pub struct Slots {
    /// Symbols with a __stubs entry, in stub order.
    pub stub_syms: Vec<u32>,
    /// Symbols with a __got slot, in slot order.
    pub got_syms: Vec<u32>,
    /// Thread-local symbols with a __thread_ptrs slot, in slot order.
    pub thread_ptr_syms: Vec<u32>,
    /// The _objc_msgSend$<selector> symbols, in __objc_stubs entry order,
    /// with their selector names.
    pub objc_stubs: Vec<(u32, Vec<u8>)>,
    /// The _objc_msgSend symbol, once such stubs exist.
    pub objc_msgsend_sym: Option<u32>,
    /// The synthesized selector strings, and each one's offset.
    pub objc_methname_data: Vec<u8>,
    pub objc_methname_offs: Vec<u64>,
    /// Per selector stub: an input's selector reference that the stub loads
    /// instead of a synthesized one, or `UNSET`, and its slot's index in the
    /// tail when it has one.
    pub objc_stub_selref: Vec<u32>,
    pub objc_stub_tail: Vec<u32>,
    /// The number of stub slots in the tail; extra selector references
    /// follow them.
    pub objc_tail_slots: usize,
}

/// Where everything is in the output.
#[derive(Debug)]
pub struct Layout {
    pub chunks: Vec<Chunk>,
    pub segments: Vec<OutputSegment>,
    /// The indices of the chunks that hold synthetic slots.
    pub stubs_chunk: usize,
    pub stub_helper_chunk: usize,
    pub lazy_ptrs_chunk: usize,
    pub got_chunk: usize,
    pub thread_ptrs_chunk: usize,
    pub objc_stubs_chunk: usize,
    pub objc_methname_chunk: usize,
    pub objc_selrefs_chunk: usize,
    /// The address of the first thread-local data section.
    pub tls_begin: u64,
    /// The address of the entry point.
    pub entry_addr: u64,
    /// The size of the output file.
    pub output_size: u64,
}

/// Everything about one link.
#[derive(Debug)]
pub struct Context {
    pub args: Args,
    pub inputs: Inputs,
    pub dylibs: Vec<DylibFile>,
    /// The slot indices of those symbols that have a slot.
    pub sym_aux: Vec<SymAux>,
    pub slots: Slots,
    /// Initializers to run by offset: subsection and offset of each.
    pub init_funcs: Vec<(usize, u64)>,
    /// -alias names for imported symbols: (alias, imported target).
    pub indirect_aliases: Vec<(u32, u32)>,
    pub layout: Layout,
    /// Input-order counter for resolution tie-breaking.
    pub priority_counter: u32,
}

/// A symbol's slot indices, each `NO_IDX` when absent.
pub struct SlotIndices {
    pub stub: u32,
    pub got: u32,
    pub tlv: u32,
    pub objc_stub: u32,
}

impl Layout {
    /// A layout without chunks.
    pub fn new() -> (r: Layout)
        ensures
            r.chunks.len() == 0,
            r.segments.len() == 0,
            r.stubs_chunk == usize::MAX,
            r.stub_helper_chunk == usize::MAX,
            r.lazy_ptrs_chunk == usize::MAX,
            r.got_chunk == usize::MAX,
            r.thread_ptrs_chunk == usize::MAX,
            r.objc_stubs_chunk == usize::MAX,
            r.objc_methname_chunk == usize::MAX,
            r.objc_selrefs_chunk == usize::MAX,
            r.tls_begin == 0,
            r.entry_addr == 0,
            r.output_size == 0,
    {
        Layout {
            chunks: Vec::new(),
            segments: Vec::new(),
            stubs_chunk: usize::MAX,
            stub_helper_chunk: usize::MAX,
            lazy_ptrs_chunk: usize::MAX,
            got_chunk: usize::MAX,
            thread_ptrs_chunk: usize::MAX,
            objc_stubs_chunk: usize::MAX,
            objc_methname_chunk: usize::MAX,
            objc_selrefs_chunk: usize::MAX,
            tls_begin: 0,
            entry_addr: 0,
            output_size: 0,
        }
    }
}

impl Slots {
    /// No slots.
    pub fn new() -> (r: Slots)
        ensures
            r.is_empty(),
    {
        Slots {
            stub_syms: Vec::new(),
            got_syms: Vec::new(),
            thread_ptr_syms: Vec::new(),
            objc_stubs: Vec::new(),
            objc_msgsend_sym: None,
            objc_methname_data: Vec::new(),
            objc_methname_offs: Vec::new(),
            objc_stub_selref: Vec::new(),
            objc_stub_tail: Vec::new(),
            objc_tail_slots: 0,
        }
    }

    /// True when no symbol has a slot.
    pub open spec fn is_empty(self) -> bool {
        &&& self.stub_syms.len() == 0
        &&& self.got_syms.len() == 0
        &&& self.thread_ptr_syms.len() == 0
        &&& self.objc_stubs.len() == 0
        &&& self.objc_msgsend_sym is None
        &&& self.objc_methname_data.len() == 0
        &&& self.objc_methname_offs.len() == 0
        &&& self.objc_stub_selref.len() == 0
        &&& self.objc_stub_tail.len() == 0
        &&& self.objc_tail_slots == 0
    }
}

impl Context {
    /// True when a symbol's library and slot entry exist.
    pub open spec fn sym_ok(self, s: Symbol) -> bool {
        &&& s.defined_by() matches Origin::Dylib(d) ==> d == UNSET || d < self.dylibs.len()
        &&& s.aux_idx == NONE || s.aux_idx < self.sym_aux.len()
    }

    /// True when the chunks that a symbol's slots are in exist.
    pub open spec fn aux_ok(self, a: SymAux) -> bool {
        let n = self.layout.chunks.len();
        &&& a.stub_idx != NO_IDX ==> self.layout.stubs_chunk < n
        &&& a.got_idx != NO_IDX ==> self.layout.got_chunk < n
        &&& a.tlv_idx != NO_IDX ==> self.layout.thread_ptrs_chunk < n
        &&& a.objc_stub_idx != NO_IDX ==> self.layout.objc_stubs_chunk < n
    }

    /// True when everything refers to what exists.
    pub open spec fn wf(self) -> bool {
        &&& self.inputs.wf()
        &&& forall|i: int|
            0 <= i < self.inputs.symtab.syms.len() ==> self.sym_ok(
                #[trigger] self.inputs.symtab.syms[i],
            )
        &&& forall|i: int| 0 <= i < self.sym_aux.len() ==> self.aux_ok(#[trigger] self.sym_aux[i])
        &&& forall|i: int|
            0 <= i < self.inputs.isecs.len() ==> (#[trigger] self.inputs.isecs[i]).osec == UNSET
                || self.inputs.isecs[i].osec < self.layout.chunks.len()
    }

    /// A context for the given arguments, without inputs.
    pub fn new(args: Args) -> (r: Context)
        ensures
            r.args == args,
            r.wf(),
            r.inputs.objs.len() == 0,
            r.inputs.isecs.len() == 0,
            r.inputs.symtab.syms.len() == 0,
            r.inputs.symtab.wf(),
            r.inputs.synthetic_hdrs.len() == 0,
            r.inputs.unwind_records.len() == 0,
            r.inputs.cies.len() == 0,
            r.inputs.fdes.len() == 0,
            r.dylibs.len() == 0,
            r.sym_aux.len() == 0,
            r.slots.is_empty(),
            r.init_funcs.len() == 0,
            r.indirect_aliases.len() == 0,
            r.layout.chunks.len() == 0,
            r.layout.segments.len() == 0,
            r.priority_counter == 0,
    {
        Context {
            args,
            inputs: Inputs {
                objs: Vec::new(),
                symtab: SymbolTable::new(),
                isecs: Vec::new(),
                synthetic_hdrs: Vec::new(),
                unwind_records: Vec::new(),
                cies: Vec::new(),
                fdes: Vec::new(),
            },
            dylibs: Vec::new(),
            sym_aux: Vec::new(),
            slots: Slots::new(),
            init_funcs: Vec::new(),
            indirect_aliases: Vec::new(),
            layout: Layout::new(),
            priority_counter: 0,
        }
    }

    /// The next input-order priority. `None` when they are used up.
    pub fn next_priority(&mut self) -> (r: Option<u32>)
        ensures
            old(self).priority_counter < u32::MAX ==> r == Some(
                (old(self).priority_counter + 1) as u32,
            ) && final(self).priority_counter == old(self).priority_counter + 1,
            old(self).priority_counter == u32::MAX ==> r is None && final(self).priority_counter
                == u32::MAX,
            *final(self) == (Context {
                priority_counter: final(self).priority_counter,
                ..*old(self)
            }),
    {
        if self.priority_counter == u32::MAX {
            return None;
        }
        self.priority_counter = self.priority_counter + 1;
        Some(self.priority_counter)
    }

    /// The bind ordinal of a symbol imported from a library: the library's
    /// own under two-level namespace, else the flat-lookup one.
    pub open spec fn ordinal_of(self, dylib: u32) -> i32 {
        if self.args.sw.flat_namespace || dylib == UNSET {
            BIND_SPECIAL_DYLIB_FLAT_LOOKUP
        } else {
            self.dylibs[dylib as int].dylib_idx
        }
    }

    /// The bind ordinal of a symbol imported from a library.
    pub fn bind_ordinal(&self, dylib: u32) -> (r: i32)
        requires
            dylib == UNSET || dylib < self.dylibs.len(),
        ensures
            r == self.ordinal_of(dylib),
    {
        if self.args.sw.flat_namespace || dylib == UNSET {
            BIND_SPECIAL_DYLIB_FLAT_LOOKUP
        } else {
            self.dylibs[dylib as usize].dylib_idx
        }
    }

    /// The library ordinal as the chained-fixups import formats encode it in
    /// a field of `bits` bits: special ordinals in two's complement, and the
    /// main executable as -1.
    pub fn chained_import_ordinal(&self, dylib: u32, bits: u32) -> (r: u64)
        requires
            dylib == UNSET || dylib < self.dylibs.len(),
            bits < 64,
        ensures
            r == bytes::word64(self.import_ordinal(dylib)) & (((1u64 << bits) - 1) as u64),
    {
        let ordinal: i32 = self.bind_ordinal(dylib);
        let o: i64 = if ordinal == BIND_SPECIAL_DYLIB_MAIN_EXECUTABLE {
            -1
        } else {
            ordinal as i64
        };
        assert(1u64 << bits >= 1) by (bit_vector)
            requires
                bits < 64,
        ;
        bytes::from_signed64(o) & ((1u64 << bits) - 1)
    }

    /// The library ordinal in a chained-fixups import, before it is cut to
    /// its field.
    pub open spec fn import_ordinal(self, dylib: u32) -> int {
        if self.ordinal_of(dylib) == BIND_SPECIAL_DYLIB_MAIN_EXECUTABLE {
            -1
        } else {
            self.ordinal_of(dylib) as int
        }
    }

    /// The library ordinal in an undefined symbol's description.
    pub open spec fn nlist_ordinal(self, dylib: u32) -> u8 {
        if self.ordinal_of(dylib) == BIND_SPECIAL_DYLIB_MAIN_EXECUTABLE {
            0xff
        } else {
            (self.ordinal_of(dylib) as int % 256) as u8
        }
    }

    /// The library ordinal in an undefined symbol's description: 0xff for
    /// the bundle loader, 0xfe for flat lookup, else the library's.
    pub fn nlist_library_ordinal(&self, dylib: u32) -> (r: u8)
        requires
            dylib == UNSET || dylib < self.dylibs.len(),
        ensures
            r == self.nlist_ordinal(dylib),
    {
        let ordinal: i32 = self.bind_ordinal(dylib);
        if ordinal == BIND_SPECIAL_DYLIB_MAIN_EXECUTABLE {
            0xff
        } else {
            ((ordinal as i64 + 0x1_0000_0000) % 256) as u8
        }
    }

    /// True if the output uses chained fixups: as asked, or else from the
    /// deployment target where they are the default, unless undefined
    /// symbols are looked up dynamically.
    pub open spec fn chained<E: Arch>(self) -> bool {
        match self.args.sw.fixup_chains {
            Some(b) => b,
            None => {
                let min = if E::info().cputype == CPU_TYPE_ARM64 {
                    12u32
                } else {
                    13u32
                };
                &&& !(self.args.sw.undefined_dynamic_lookup && !self.args.sw.undefined_is_warning)
                &&& self.args.sw.platform == PLATFORM_MACOS
                &&& self.args.sw.platform_minos >= crate::macho::version_word(min, 0, 0)
            },
        }
    }

    /// True if the output uses chained fixups.
    pub fn use_chained_fixups<E: Arch>(&self) -> (r: bool)
        ensures
            r == self.chained::<E>(),
    {
        match self.args.sw.fixup_chains {
            Some(b) => b,
            None => {
                if self.args.sw.undefined_dynamic_lookup && !self.args.sw.undefined_is_warning {
                    return false;
                }
                let min: u32 = if E::get_info().cputype == CPU_TYPE_ARM64 {
                    12
                } else {
                    13
                };
                self.args.sw.platform == PLATFORM_MACOS && self.args.sw.platform_minos
                    >= encode_version(min, 0, 0)
            },
        }
    }

    /// True if imported functions are called through lazy pointers.
    pub open spec fn is_lazy<E: Arch>(self) -> bool {
        !self.args.sw.relocatable && !self.chained::<E>() && !self.args.sw.bind_at_load
    }

    /// True if imported functions are called through lazy pointers bound on
    /// first use.
    pub fn lazy_binding<E: Arch>(&self) -> (r: bool)
        ensures
            r == self.is_lazy::<E>(),
    {
        !self.args.sw.relocatable && !self.use_chained_fixups::<E>() && !self.args.sw.bind_at_load
    }

    /// A symbol's slot indices.
    pub open spec fn slots_of(self, id: int) -> SlotIndices {
        let a = self.inputs.symtab.syms[id].aux_idx;
        if a == NONE {
            SlotIndices { stub: NO_IDX, got: NO_IDX, tlv: NO_IDX, objc_stub: NO_IDX }
        } else {
            let x = self.sym_aux[a as int];
            SlotIndices {
                stub: x.stub_idx,
                got: x.got_idx,
                tlv: x.tlv_idx,
                objc_stub: x.objc_stub_idx,
            }
        }
    }

    /// A symbol's slot indices.
    pub fn sym_aux(&self, id: u32) -> (r: SlotIndices)
        requires
            self.wf(),
            id < self.inputs.symtab.syms.len(),
        ensures
            r == self.slots_of(id as int),
            r.stub != NO_IDX ==> self.layout.stubs_chunk < self.layout.chunks.len(),
            r.got != NO_IDX ==> self.layout.got_chunk < self.layout.chunks.len(),
            r.tlv != NO_IDX ==> self.layout.thread_ptrs_chunk < self.layout.chunks.len(),
            r.objc_stub != NO_IDX ==> self.layout.objc_stubs_chunk < self.layout.chunks.len(),
    {
        proof {
            assert(self.sym_ok(self.inputs.symtab.syms[id as int]));
        }
        let a: u32 = self.inputs.symtab.syms[id as usize].aux_idx;
        if a == NONE {
            SlotIndices { stub: NO_IDX, got: NO_IDX, tlv: NO_IDX, objc_stub: NO_IDX }
        } else {
            proof {
                assert(self.aux_ok(self.sym_aux[a as int]));
            }
            let x: &SymAux = &self.sym_aux[a as usize];
            SlotIndices {
                stub: x.stub_idx,
                got: x.got_idx,
                tlv: x.tlv_idx,
                objc_stub: x.objc_stub_idx,
            }
        }
    }

    /// The output address of a subsection: that of its surviving copy, or 0
    /// if that has no place.
    pub open spec fn addr_of_isec(self, id: int) -> u64 {
        let s = self.inputs.isecs[crate::inputs::survivor(self.inputs.isecs@, id)];
        if s.osec == UNSET || s.output_offset == UNPLACED {
            0
        } else {
            bytes::word64(self.layout.chunks[s.osec as int].hdr.addr + s.output_offset)
        }
    }

    /// The output address of a subsection.
    pub fn isec_addr(&self, id: usize) -> (r: u64)
        requires
            self.wf(),
            id < self.inputs.isecs.len(),
        ensures
            r == self.addr_of_isec(id as int),
    {
        proof {
            crate::inputs::lemma_wf_redirects(self.inputs);
        }
        let at: usize = resolve_isec(&self.inputs.isecs, id);
        let s: &InputSection = &self.inputs.isecs[at];
        if s.osec == UNSET || s.output_offset == UNPLACED {
            return 0;
        }
        bytes::sum64(self.layout.chunks[s.osec as usize].hdr.addr, s.output_offset)
    }

    /// The address of a slot: `idx` slots of `size` bytes into a chunk.
    pub open spec fn slot_addr(self, chunk: usize, idx: u32, size: u64) -> u64 {
        bytes::word64(self.layout.chunks[chunk as int].hdr.addr + idx * size)
    }

    /// The address of a slot.
    pub fn find_slot(&self, chunk: usize, idx: u32, size: u64) -> (r: u64)
        requires
            chunk < self.layout.chunks.len(),
            size <= 64,
        ensures
            r == self.slot_addr(chunk, idx, size),
    {
        assert(idx * size <= 0xffff_ffff * 64) by (nonlinear_arith)
            requires
                idx <= 0xffff_ffff,
                size <= 64,
        ;
        bytes::sum64(self.layout.chunks[chunk].hdr.addr, idx as u64 * size)
    }

    /// The address of a symbol's __stubs entry.
    pub open spec fn addr_of_stub<E: Arch>(self, id: int) -> u64 {
        self.slot_addr(self.layout.stubs_chunk, self.slots_of(id).stub, E::info().stub_size)
    }

    /// The address of a symbol's __stubs entry.
    pub fn sym_stub_addr<E: Arch>(&self, id: u32) -> (r: u64)
        requires
            self.wf(),
            id < self.inputs.symtab.syms.len(),
            self.slots_of(id as int).stub != NO_IDX,
        ensures
            r == self.addr_of_stub::<E>(id as int),
    {
        let size: u64 = E::get_info().stub_size;
        let s: SlotIndices = self.sym_aux(id);
        self.find_slot(self.layout.stubs_chunk, s.stub, size)
    }

    /// The address of a symbol's __got slot.
    pub open spec fn addr_of_got(self, id: int) -> u64 {
        self.slot_addr(self.layout.got_chunk, self.slots_of(id).got, 8)
    }

    /// The address of a symbol's __got slot.
    pub fn sym_got_addr(&self, id: u32) -> (r: u64)
        requires
            self.wf(),
            id < self.inputs.symtab.syms.len(),
            self.slots_of(id as int).got != NO_IDX,
        ensures
            r == self.addr_of_got(id as int),
    {
        let s: SlotIndices = self.sym_aux(id);
        self.find_slot(self.layout.got_chunk, s.got, 8)
    }

    /// The address of a symbol's __thread_ptrs slot.
    pub open spec fn addr_of_tlv_ptr(self, id: int) -> u64 {
        self.slot_addr(self.layout.thread_ptrs_chunk, self.slots_of(id).tlv, 8)
    }

    /// The address of a symbol's __thread_ptrs slot.
    pub fn sym_tlv_ptr_addr(&self, id: u32) -> (r: u64)
        requires
            self.wf(),
            id < self.inputs.symtab.syms.len(),
            self.slots_of(id as int).tlv != NO_IDX,
        ensures
            r == self.addr_of_tlv_ptr(id as int),
    {
        let s: SlotIndices = self.sym_aux(id);
        self.find_slot(self.layout.thread_ptrs_chunk, s.tlv, 8)
    }

    /// The output address of a symbol: of its definition, of its selector
    /// stub, or of the stub through which a branch reaches an import. 0 for
    /// an import without a stub, which dyld fills in, and for an undefined
    /// symbol.
    pub open spec fn addr_of_sym<E: Arch>(self, id: int) -> u64 {
        let s = self.inputs.symtab.syms[id];
        match s.defined_by() {
            Origin::Undef => 0,
            Origin::Dylib(_) => if self.slots_of(id).stub != NO_IDX {
                self.addr_of_stub::<E>(id)
            } else {
                0
            },
            _ => match s.section() {
                Some(i) => bytes::word64(self.addr_of_isec(i as int) + s.value),
                None => if self.slots_of(id).objc_stub != NO_IDX {
                    self.slot_addr(
                        self.layout.objc_stubs_chunk,
                        self.slots_of(id).objc_stub,
                        E::info().objc_stub_size,
                    )
                } else {
                    s.value
                },
            },
        }
    }

    /// The output address of a symbol.
    pub fn sym_addr<E: Arch>(&self, id: u32) -> (r: u64)
        requires
            self.wf(),
            id < self.inputs.symtab.syms.len(),
        ensures
            r == self.addr_of_sym::<E>(id as int),
    {
        proof {
            assert(self.inputs.sym_ok(self.inputs.symtab.syms[id as int]));
        }
        let s: &Symbol = &self.inputs.symtab.syms[id as usize];
        match s.origin() {
            Origin::Undef => 0,
            Origin::Dylib(_) => {
                if self.sym_aux(id).stub != NO_IDX {
                    self.sym_stub_addr::<E>(id)
                } else {
                    0
                }
            },
            _ => match s.isec() {
                Some(i) => {
                    let base: u64 = self.isec_addr(i as usize);
                    bytes::sum64(base, s.value)
                },
                None => {
                    let x: SlotIndices = self.sym_aux(id);
                    if x.objc_stub != NO_IDX {
                        let size: u64 = E::get_info().objc_stub_size;
                        self.find_slot(self.layout.objc_stubs_chunk, x.objc_stub, size)
                    } else {
                        s.value
                    }
                },
            },
        }
    }

    /// True for a weak definition of this image that dyld may replace with
    /// another image's copy: an exported weak definition from an object.
    pub open spec fn weak_coalesced(self, id: int) -> bool {
        let s = self.inputs.symtab.syms[id];
        &&& !self.args.sw.relocatable
        &&& s.defined_by() is Obj
        &&& s.flags.is_weak_def
        &&& s.flags.is_extern
        &&& !s.flags.is_private_extern
    }

    /// True for a weak definition of this image that dyld may replace.
    pub fn is_weak_coalesced(&self, id: u32) -> (r: bool)
        requires
            id < self.inputs.symtab.syms.len(),
        ensures
            r == self.weak_coalesced(id as int),
    {
        if self.args.sw.relocatable {
            return false;
        }
        let s: &Symbol = &self.inputs.symtab.syms[id as usize];
        let from_obj: bool = match s.origin() {
            Origin::Obj(_) => true,
            _ => false,
        };
        from_obj && s.flags.is_weak_def && s.flags.is_extern && !s.flags.is_private_extern
    }

    /// True if dyld fills the references to this symbol.
    pub fn binds_at_runtime(&self, id: u32) -> (r: bool)
        requires
            id < self.inputs.symtab.syms.len(),
        ensures
            r == (self.inputs.symtab.syms[id as int].flags.is_imported || self.weak_coalesced(
                id as int,
            )),
    {
        self.inputs.symtab.syms[id as usize].flags.is_imported || self.is_weak_coalesced(id)
    }

    /// True when one of the libraries exports the name as a weak
    /// definition.
    pub open spec fn exported_weakly(self, name: Seq<u8>, n: int) -> bool
        decreases n,
    {
        n > 0 && (bytes::views(self.dylibs[n - 1].weak_exports@).contains(name)
            || self.exported_weakly(name, n - 1))
    }

    /// True for a definition that this image exports and that overrides a
    /// library's weak export.
    pub open spec fn overrides_weak(self, id: int) -> bool {
        let s = self.inputs.symtab.syms[id];
        &&& s.defined_by() is Obj
        &&& s.flags.is_extern
        &&& !s.flags.is_private_extern
        &&& !s.flags.is_weak_def
        &&& self.exported_weakly(s.name@, self.dylibs.len() as int)
    }

    /// True for a definition that this image exports and that overrides a
    /// library's weak export.
    pub fn overrides_weak_export(&self, id: u32) -> (r: bool)
        requires
            id < self.inputs.symtab.syms.len(),
        ensures
            r == self.overrides_weak(id as int),
    {
        let s: &Symbol = &self.inputs.symtab.syms[id as usize];
        let from_obj: bool = match s.origin() {
            Origin::Obj(_) => true,
            _ => false,
        };
        if !(from_obj && s.flags.is_extern && !s.flags.is_private_extern && !s.flags.is_weak_def) {
            return false;
        }
        let mut found: bool = false;
        let mut i: usize = 0;
        while i < self.dylibs.len()
            invariant
                i <= self.dylibs.len(),
                found == self.exported_weakly(s.name@, i as int),
            decreases self.dylibs.len() - i,
        {
            let hit: bool = text::holds(&self.dylibs[i].weak_exports, s.name.as_slice());
            found = found || hit;
            i += 1;
        }
        found
    }

    /// True if dyld resolves the symbol by searching every image for the
    /// coalesced definition.
    pub open spec fn weak_lookup(self, id: int) -> bool {
        let s = self.inputs.symtab.syms[id];
        self.weak_coalesced(id) || match s.defined_by() {
            Origin::Dylib(d) => d != UNSET && bytes::views(
                self.dylibs[d as int].weak_exports@,
            ).contains(s.name@),
            _ => false,
        }
    }

    /// True if dyld resolves the symbol by weak lookup: a coalescable weak
    /// definition of this image, or an import that its library exports as a
    /// weak definition.
    pub fn binds_weak_lookup(&self, id: u32) -> (r: bool)
        requires
            self.wf(),
            id < self.inputs.symtab.syms.len(),
        ensures
            r == self.weak_lookup(id as int),
    {
        if self.is_weak_coalesced(id) {
            return true;
        }
        proof {
            assert(self.sym_ok(self.inputs.symtab.syms[id as int]));
        }
        let s: &Symbol = &self.inputs.symtab.syms[id as usize];
        match s.origin() {
            Origin::Dylib(d) => d != UNSET && text::holds(
                &self.dylibs[d as usize].weak_exports,
                s.name.as_slice(),
            ),
            _ => false,
        }
    }

    /// The address that a branch to a symbol goes to: its stub when it has
    /// one and dyld may redirect it, else the symbol itself.
    pub open spec fn branch_addr<E: Arch>(self, id: int) -> u64 {
        if self.weak_coalesced(id) && self.slots_of(id).stub != NO_IDX {
            self.addr_of_stub::<E>(id)
        } else {
            self.addr_of_sym::<E>(id)
        }
    }

    /// The address that a branch to a symbol goes to.
    pub fn branch_target_addr<E: Arch>(&self, id: u32) -> (r: u64)
        requires
            self.wf(),
            id < self.inputs.symtab.syms.len(),
        ensures
            r == self.branch_addr::<E>(id as int),
    {
        if self.is_weak_coalesced(id) && self.sym_aux(id).stub != NO_IDX {
            self.sym_stub_addr::<E>(id)
        } else {
            self.sym_addr::<E>(id)
        }
    }

    /// The address of the pointer slot that stub `i`, for symbol `id`, jumps
    /// through: its lazy pointer, or its GOT slot.
    pub open spec fn stub_slot<E: Arch>(self, i: u32, id: int) -> u64 {
        if self.is_lazy::<E>() && !self.weak_lookup(id) {
            self.slot_addr(self.layout.lazy_ptrs_chunk, i, 8)
        } else {
            self.addr_of_got(id)
        }
    }

    /// The address of the pointer slot that stub `i`, for symbol `id`, jumps
    /// through.
    pub fn stub_ptr_addr<E: Arch>(&self, i: u32, id: u32) -> (r: u64)
        requires
            self.wf(),
            id < self.inputs.symtab.syms.len(),
            self.is_lazy::<E>() ==> self.layout.lazy_ptrs_chunk < self.layout.chunks.len(),
            !self.is_lazy::<E>() || self.weak_lookup(id as int) ==> self.slots_of(id as int).got
                != NO_IDX,
        ensures
            r == self.stub_slot::<E>(i, id as int),
    {
        if self.lazy_binding::<E>() && !self.binds_weak_lookup(id) {
            self.find_slot(self.layout.lazy_ptrs_chunk, i, 8)
        } else {
            self.sym_got_addr(id)
        }
    }

    /// True if selector stub `i` loads an input's selector reference.
    pub open spec fn reuses_selref(self, i: int) -> bool {
        i < self.slots.objc_stub_selref.len() && self.slots.objc_stub_selref[i] != UNSET
    }

    /// True if selector stub `i` loads an input's selector reference rather
    /// than a synthesized slot.
    pub fn objc_stub_reuses_selref(&self, i: usize) -> (r: bool)
        ensures
            r == self.reuses_selref(i as int),
    {
        i < self.slots.objc_stub_selref.len() && self.slots.objc_stub_selref[i] != UNSET
    }

    /// The address behind a chunk's subsections, `off` bytes on.
    pub open spec fn tail_addr(self, chunk: usize, off: int) -> u64 {
        let c = self.layout.chunks[chunk as int];
        bytes::word64(c.hdr.addr + c.tail_off + off)
    }

    fn find_tail(&self, chunk: usize, off: u64) -> (r: u64)
        requires
            chunk < self.layout.chunks.len(),
        ensures
            r == self.tail_addr(chunk, off as int),
    {
        let c: &Chunk = &self.layout.chunks[chunk];
        let a: u64 = bytes::sum64(c.hdr.addr, c.tail_off);
        proof {
            bytes::lemma_word64_sum(c.hdr.addr + c.tail_off, off as int);
        }
        bytes::sum64(a, off)
    }

    /// The address of the selector reference slot of objc stub `i` (or, past
    /// the stubs, of an extra selector reference): an input's slot that the
    /// stub reuses, else its slot in the tail of __objc_selrefs.
    pub open spec fn selref_addr(self, i: int) -> u64 {
        if i < self.slots.objc_stubs.len() {
            if self.reuses_selref(i) {
                self.addr_of_isec(self.slots.objc_stub_selref[i] as int)
            } else {
                self.tail_addr(
                    self.layout.objc_selrefs_chunk,
                    8 * self.slots.objc_stub_tail[i] as int,
                )
            }
        } else {
            self.tail_addr(
                self.layout.objc_selrefs_chunk,
                8 * (self.slots.objc_tail_slots + (i - self.slots.objc_stubs.len())),
            )
        }
    }

    /// The address of the selector reference slot of objc stub `i`.
    pub fn objc_selref_addr(&self, i: usize) -> (r: u64)
        requires
            self.wf(),
            self.slots.objc_stub_selref.len() == self.slots.objc_stubs.len(),
            self.slots.objc_stub_tail.len() == self.slots.objc_stubs.len(),
            i < self.slots.objc_stubs.len() && self.reuses_selref(i as int)
                ==> self.slots.objc_stub_selref[i as int] < self.inputs.isecs.len(),
            !(i < self.slots.objc_stubs.len() && self.reuses_selref(i as int))
                ==> self.layout.objc_selrefs_chunk < self.layout.chunks.len(),
            self.slots.objc_tail_slots + i < 0x1000_0000,
        ensures
            r == self.selref_addr(i as int),
    {
        if i < self.slots.objc_stubs.len() {
            if self.objc_stub_reuses_selref(i) {
                self.isec_addr(self.slots.objc_stub_selref[i] as usize)
            } else {
                self.find_tail(
                    self.layout.objc_selrefs_chunk,
                    8 * self.slots.objc_stub_tail[i] as u64,
                )
            }
        } else {
            let slot: usize = self.slots.objc_tail_slots + (i - self.slots.objc_stubs.len());
            self.find_tail(self.layout.objc_selrefs_chunk, 8 * slot as u64)
        }
    }

    /// The address of the synthesized selector name of objc stub `i`: in the
    /// tail of __objc_methname.
    pub fn objc_methname_addr(&self, i: usize) -> (r: u64)
        requires
            i < self.slots.objc_methname_offs.len(),
            self.layout.objc_methname_chunk < self.layout.chunks.len(),
        ensures
            r == self.tail_addr(
                self.layout.objc_methname_chunk,
                self.slots.objc_methname_offs[i as int] as int,
            ),
    {
        self.find_tail(self.layout.objc_methname_chunk, self.slots.objc_methname_offs[i])
    }

    /// True if a relocation's target is thread-local data.
    pub open spec fn target_is_tls(self, obj: u32, rel: Reloc) -> bool {
        match self.inputs.target_isec(obj, rel) {
            Some(i) => {
                let kind = self.inputs.header(self.inputs.isecs[i as int]).kind();
                kind == S_THREAD_LOCAL_REGULAR || kind == S_THREAD_LOCAL_ZEROFILL
            },
            None => false,
        }
    }

    /// True if a relocation's target is thread-local data.
    pub fn reloc_target_is_tls(&self, obj: u32, rel: &Reloc) -> (r: bool)
        requires
            self.wf(),
            obj < self.inputs.objs.len(),
            self.inputs.reloc_ok(obj, *rel),
        ensures
            r == self.target_is_tls(obj, *rel),
    {
        match self.inputs.reloc_target_isec(obj, rel) {
            Some(i) => {
                let kind: u32 = self.inputs.hdr_of(i as usize).section_type();
                kind == S_THREAD_LOCAL_REGULAR || kind == S_THREAD_LOCAL_ZEROFILL
            },
            None => false,
        }
    }

    /// The output address of a relocation's target.
    pub open spec fn target_addr<E: Arch>(self, obj: u32, rel: Reloc) -> u64 {
        match rel.refers_to() {
            RelocTarget::Sym(i) => self.addr_of_sym::<E>(
                self.inputs.objs[obj as int].syms[i as int] as int,
            ),
            RelocTarget::Section(i) => self.addr_of_isec(i as int),
        }
    }

    /// The output address of a relocation's target.
    pub fn reloc_target_addr<E: Arch>(&self, obj: u32, rel: &Reloc) -> (r: u64)
        requires
            self.wf(),
            obj < self.inputs.objs.len(),
            self.inputs.reloc_ok(obj, *rel),
        ensures
            r == self.target_addr::<E>(obj, *rel),
    {
        proof {
            assert(self.inputs.obj_ok(self.inputs.objs[obj as int]));
        }
        match rel.target() {
            RelocTarget::Sym(i) => {
                let id: u32 = self.inputs.objs[obj as usize].syms[i as usize];
                self.sym_addr::<E>(id)
            },
            RelocTarget::Section(i) => self.isec_addr(i as usize),
        }
    }
}

} // verus!
