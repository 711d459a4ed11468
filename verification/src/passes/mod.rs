//! The linker passes.

pub mod address_laws;
pub mod chain_laws;
pub mod chained;
pub mod chunk_list;
pub mod contents;
pub mod convert;
pub mod create;
pub mod dead_strip;
pub mod dylibs;
pub mod eh_layout;
pub mod finish;
pub mod fixups;
pub mod fold_laws;
pub mod icf;
pub mod identity;
pub mod layout;
pub mod layout_laws;
pub mod literal_laws;
pub mod literals;
pub mod lto;
pub mod objc_stubs;
pub mod offsets;
pub mod order;
pub mod output;
pub mod pipeline;
pub mod planning;
pub mod read_inputs;
pub mod reports;
pub mod resolve;
pub mod resolve_inputs;
pub mod resolve_laws;
pub mod search;
pub mod sections;
pub mod slot_laws;
pub mod slots;
pub mod stab_laws;
pub mod stabs;
pub mod strip_laws;
pub mod symbol_laws;
pub mod symtab;
pub mod synthetic;
pub mod tables;
pub mod thunk_laws;
pub mod undefined;
pub mod weak;
