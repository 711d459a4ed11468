//! A linker for Mach-O objects.

pub mod arch;
pub mod archive_file;
pub mod args;
pub mod checks;
pub mod chunks;
pub mod cmdline;
pub mod container_laws;
pub mod context;
pub mod filetype;
pub mod input_files;
pub mod input_sections;
pub mod inputs;
pub mod json;
pub mod macho;
pub mod mapfile;
pub mod mapped_file;
pub mod name_map;
pub mod name_set;
pub mod options;
pub mod output_chunks;
pub mod passes;
pub mod relocatable;
pub mod symbol;
pub mod tapi;
pub mod thunks;
pub mod util;
