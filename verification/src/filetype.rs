//! Input file type detection.
use crate::arch::Arch;
use crate::args::TargetName;
use crate::macho::consts::{
    CPU_TYPE_ARM64, CPU_TYPE_X86_64, FAT_MAGIC, MH_DYLIB, MH_MAGIC_64, MH_OBJECT,
};
use crate::mapped_file::{join_brackets, MappedFile, MappedView};
use crate::util::bytes;
use vstd::prelude::*;
use vstd::string::*;

verus! {

/// What kind of file an input is.
#[derive(Clone, Copy, Debug, PartialEq, Eq, Structural)]
pub enum FileType {
    Unknown,
    Empty,
    Object,
    Dylib,
    Archive,
    /// A TAPI text-based dylib stub, a description of a dylib that ships in
    /// SDKs in place of the binary.
    Tapi,
    Fat,
    /// An LLVM bitcode module, bare or wrapped.
    LlvmBitcode,
}

/// The 32-bit big-endian value at `off`.
pub open spec fn be32_at(s: Seq<u8>, off: int) -> u32 {
    (0x100_0000 * s[off] + 0x1_0000 * s[off + 1] + 0x100 * s[off + 2] + s[off + 3]) as u32
}

/// Reads the 32-bit big-endian field at `off`.
pub fn get_be32(s: &[u8], off: usize) -> (r: u32)
    requires
        off + 4 <= s.len(),
    ensures
        r == be32_at(s@, off as int),
{
    0x100_0000 * s[off] as u32 + 0x1_0000 * s[off + 1] as u32 + 0x100 * s[off + 2] as u32 + s[off
        + 3] as u32
}

/// True for the contents of a bitcode module: they start with "BC" 0xc0de,
/// or with the magic number of the wrapper around one.
pub open spec fn holds_bitcode(data: Seq<u8>) -> bool {
    ||| bytes::has_prefix(data, seq![0x42u8, 0x43, 0xc0, 0xde])
    ||| bytes::has_prefix(data, seq![0xdeu8, 0xc0, 0x17, 0x0b])
}

fn is_bitcode(data: &[u8]) -> (r: bool)
    ensures
        r == holds_bitcode(data@),
{
    let bare: [u8; 4] = [0x42, 0x43, 0xc0, 0xde];
    let wrapped: [u8; 4] = [0xde, 0xc0, 0x17, 0x0b];
    assert(bare@ =~= seq![0x42u8, 0x43, 0xc0, 0xde]);
    assert(wrapped@ =~= seq![0xdeu8, 0xc0, 0x17, 0x0b]);
    bytes::starts_with(data, bare.as_slice()) || bytes::starts_with(data, wrapped.as_slice())
}

/// The kind of a file with the given contents.
pub open spec fn file_type(data: Seq<u8>) -> FileType {
    if data.len() == 0 {
        FileType::Empty
    } else if bytes::has_prefix(data, "!<arch>\n".spec_bytes()) {
        FileType::Archive
    } else if bytes::has_prefix(data, "--- !tapi-tbd".spec_bytes()) || bytes::has_prefix(
        data,
        "---\narchs:".spec_bytes(),
    ) {
        FileType::Tapi
    } else if holds_bitcode(data) {
        FileType::LlvmBitcode
    } else if data.len() < 32 {
        FileType::Unknown
    } else if bytes::u32_at(data, 0) == MH_MAGIC_64 {
        let t = bytes::u32_at(data, 12);
        if t == MH_OBJECT {
            FileType::Object
        } else if t == MH_DYLIB {
            FileType::Dylib
        } else {
            FileType::Unknown
        }
    } else if be32_at(data, 0) == FAT_MAGIC {
        FileType::Fat
    } else {
        FileType::Unknown
    }
}

/// Detects the kind of a file by its contents.
pub fn get_file_type(data: &[u8]) -> (r: FileType)
    ensures
        r == file_type(data@),
{
    if data.len() == 0 {
        return FileType::Empty;
    }
    if bytes::starts_with(data, "!<arch>\n".as_bytes()) {
        return FileType::Archive;
    }
    if bytes::starts_with(data, "--- !tapi-tbd".as_bytes()) || bytes::starts_with(
        data,
        "---\narchs:".as_bytes(),
    ) {
        return FileType::Tapi;
    }
    if is_bitcode(data) {
        return FileType::LlvmBitcode;
    }
    if data.len() < 32 {
        return FileType::Unknown;
    }
    if bytes::get32(data, 0) == MH_MAGIC_64 {
        let t: u32 = bytes::get32(data, 12);
        return if t == MH_OBJECT {
            FileType::Object
        } else if t == MH_DYLIB {
            FileType::Dylib
        } else {
            FileType::Unknown
        };
    }
    if get_be32(data, 0) == FAT_MAGIC {
        return FileType::Fat;
    }
    FileType::Unknown
}

/// The target that a Mach-O file is for. `None` for any other file.
pub open spec fn target_of(data: Seq<u8>) -> Option<TargetName> {
    if data.len() < 32 || bytes::u32_at(data, 0) != MH_MAGIC_64 {
        None
    } else if bytes::u32_at(data, 4) == CPU_TYPE_ARM64 {
        Some(TargetName::Arm64)
    } else if bytes::u32_at(data, 4) == CPU_TYPE_X86_64 {
        Some(TargetName::X86_64)
    } else {
        None
    }
}

/// Finds out which target a Mach-O file is for.
pub fn get_macho_target(data: &[u8]) -> (r: Option<TargetName>)
    ensures
        r == target_of(data@),
{
    if data.len() < 32 || bytes::get32(data, 0) != MH_MAGIC_64 {
        return None;
    }
    let t: u32 = bytes::get32(data, 4);
    if t == CPU_TYPE_ARM64 {
        Some(TargetName::Arm64)
    } else if t == CPU_TYPE_X86_64 {
        Some(TargetName::X86_64)
    } else {
        None
    }
}

/// The target of the first Mach-O file from the `i`th on, or the host's.
pub open spec fn first_target(files: Seq<MappedView>, host: TargetName, i: int) -> TargetName
    decreases files.len() - i,
{
    if i < 0 || i >= files.len() {
        host
    } else {
        match target_of(files[i].data) {
            Some(t) => t,
            None => first_target(files, host, i + 1),
        }
    }
}

/// Finds out which target a link without -arch is for: that of the first
/// Mach-O input, or the host's if there is none.
pub fn detect_target(files: &Vec<MappedFile>, host: TargetName) -> (r: TargetName)
    ensures
        r == first_target(crate::archive_file::file_views(files@), host, 0),
{
    let ghost fv = crate::archive_file::file_views(files@);
    let mut i: usize = 0;
    while i < files.len()
        invariant
            i <= files.len(),
            fv == crate::archive_file::file_views(files@),
            first_target(fv, host, i as int) == first_target(fv, host, 0),
        decreases files.len() - i,
    {
        assert(fv[i as int] == files[i as int]@);
        if let Some(t) = get_macho_target(files[i].data.as_slice()) {
            return t;
        }
        i += 1;
    }
    host
}

/// Why a universal file has no slice for the target.
#[derive(Clone, Copy, Debug, PartialEq, Eq, Structural)]
pub enum FatError {
    /// The file is cut short.
    Malformed,
    /// No slice is for the target.
    NoSlice,
}

/// The place of the slice for a CPU type among those from the `i`th on.
pub open spec fn fat_slice(data: Seq<u8>, cputype: u32, n: int, i: int) -> Result<(u32, u32), FatError>
    decreases n - i,
{
    if i >= n {
        Err(FatError::NoSlice)
    } else if 8 + 20 * i + 16 > data.len() {
        Err(FatError::Malformed)
    } else if be32_at(data, 8 + 20 * i) == cputype {
        let off = be32_at(data, 8 + 20 * i + 8);
        let size = be32_at(data, 8 + 20 * i + 12);
        if off + size > data.len() {
            Err(FatError::Malformed)
        } else {
            Ok((off, size))
        }
    } else {
        fat_slice(data, cputype, n, i + 1)
    }
}

fn find_slice(data: &[u8], cputype: u32, n: u32) -> (r: Result<(u32, u32), FatError>)
    ensures
        r == fat_slice(data@, cputype, n as int, 0),
        r matches Ok(p) ==> p.0 + p.1 <= data.len(),
{
    let mut i: u32 = 0;
    while i < n
        invariant
            i <= n,
            fat_slice(data@, cputype, n as int, i as int) == fat_slice(
                data@,
                cputype,
                n as int,
                0,
            ),
        decreases n - i,
    {
        let at: u64 = 8 + 20 * i as u64;
        if at + 16 > data.len() as u64 {
            return Err(FatError::Malformed);
        }
        if get_be32(data, at as usize) == cputype {
            let off: u32 = get_be32(data, at as usize + 8);
            let size: u32 = get_be32(data, at as usize + 12);
            if off as u64 + size as u64 > data.len() as u64 {
                return Err(FatError::Malformed);
            }
            return Ok((off, size));
        }
        i += 1;
    }
    Err(FatError::NoSlice)
}

/// The name of a slice.
pub open spec fn slice_name(file: Seq<u8>, arch: Seq<u8>) -> Seq<u8> {
    crate::mapped_file::bracketed(file, "for architecture ".spec_bytes() + arch)
}

/// The slice of a universal file for the target's CPU type. Its headers are
/// big-endian.
pub fn get_fat_slice<E: Arch>(mf: &MappedFile, arch: &[u8]) -> (r: Result<MappedFile, FatError>)
    ensures
        ({
            let data = mf.data@;
            let place = if data.len() < 8 {
                Err(FatError::Malformed)
            } else {
                fat_slice(data, E::info().cputype, be32_at(data, 4) as int, 0)
            };
            match r {
                Ok(s) => place matches Ok(p) && s@ == (MappedView {
                    name: slice_name(mf.name@, arch@),
                    data: data.subrange(p.0 as int, p.0 + p.1),
                    parent: Some(mf.name@),
                }),
                Err(e) => place == Err::<(u32, u32), FatError>(e),
            }
        }),
{
    let data: &[u8] = mf.data.as_slice();
    if data.len() < 8 {
        return Err(FatError::Malformed);
    }
    match find_slice(data, E::get_info().cputype, get_be32(data, 4)) {
        Ok((off, size)) => {
            let mut inner: Vec<u8> = bytes::to_vec("for architecture ".as_bytes());
            bytes::append(&mut inner, arch);
            let name: Vec<u8> = join_brackets(mf.name.as_slice(), inner.as_slice());
            Ok(mf.slice(name, off as usize, off as usize + size as usize))
        },
        Err(e) => Err(e),
    }
}

} // verus!
