//! Output chunks: the pieces an output file is assembled from.
//!
//! A chunk is a contiguous byte range of the output: the mach header with
//! its load commands, an output section collecting input sections, or a
//! table in __LINKEDIT. Segments group chunks for the LC_SEGMENT_64 load
//! commands.

pub mod command_laws;
pub mod eh_frame;
pub mod export_lookup;
pub mod export_trie;
pub mod frame_laws;
pub mod header;
pub mod load_commands;
pub mod places;
pub mod string_table;
pub mod tables;
pub mod unwind_info;
pub mod unwind_laws;

pub use header::{
    segment_prot, Chunk, ChunkHeader, ChunkId, ChunkKind, OutputMachHeader, OutputSectionId,
    OutputSegment, SegmentPlace, Thunk,
};
pub use tables::{
    ChainedFixupsSection, CodeSignatureSection, DataInCodeSection, EhFrameSection,
    ExportTrieSection, IndirectSymtabSection, InitOffsetsSection, LazyBindInfoSection,
    SectCreateSection, StrtabSection, SymtabSection, UnwindInfoSection, WeakBindInfoSection,
};
