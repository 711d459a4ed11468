//! What can be said of an object without staging it.
use super::commands::SymtabInfo;
use super::stage::read_nlists;
use super::strtab::{symbol_name, validate_strtab};
use crate::macho::consts::{LC_SEGMENT_64, LC_SYMTAB, MH_MAGIC_64, N_UNDF};
use crate::macho::{MachSection, NList};
use crate::util::{bytes, text};
use vstd::prelude::*;
use vstd::string::*;

verus! {

/// True for a section that registers Objective-C classes or categories.
pub open spec fn is_objc_list(sectname: Seq<u8>) -> bool {
    sectname == "__objc_classlist".spec_bytes() || sectname == "__objc_catlist".spec_bytes()
        || sectname == "__objc_nlclslist".spec_bytes() || sectname
        == "__objc_nlcatlist".spec_bytes()
}

fn check_objc_list(sectname: &[u8]) -> (r: bool)
    ensures
        r == is_objc_list(sectname@),
{
    bytes::same(sectname, "__objc_classlist".as_bytes()) || bytes::same(
        sectname,
        "__objc_catlist".as_bytes(),
    ) || bytes::same(sectname, "__objc_nlclslist".as_bytes()) || bytes::same(
        sectname,
        "__objc_nlcatlist".as_bytes(),
    )
}

/// True when one of the sections of the segment command at `off` does, from
/// the `i`th on.
pub open spec fn objc_in_segment(data: Seq<u8>, off: int, n: int, i: int) -> bool
    decreases n - i,
{
    if i >= n {
        false
    } else {
        is_objc_list(crate::macho::SectionView::at(data, off + 72 + 80 * i).sectname)
            || objc_in_segment(data, off, n, i + 1)
    }
}

/// True when one of the sections of `n` load commands from `off` on does.
/// `None` when a command reaches outside the file.
pub open spec fn objc_from(data: Seq<u8>, off: int, n: nat) -> Option<bool>
    decreases n,
{
    if n == 0 {
        Some(false)
    } else if off + 8 > data.len() {
        None
    } else {
        let next = off + bytes::u32_at(data, off + 4);
        if bytes::u32_at(data, off) == LC_SEGMENT_64 {
            let count = bytes::u32_at(data, off + 64);
            if off + 72 > data.len() || off + 72 + 80 * count > data.len() {
                None
            } else if objc_in_segment(data, off, count as int, 0) {
                Some(true)
            } else {
                objc_from(data, next, (n - 1) as nat)
            }
        } else {
            objc_from(data, next, (n - 1) as nat)
        }
    }
}

fn find_objc_in_segment(data: &[u8], off: usize, n: u32) -> (r: bool)
    requires
        off + 72 + 80 * n <= data.len(),
    ensures
        r == objc_in_segment(data@, off as int, n as int, 0),
{
    let mut i: u32 = 0;
    while i < n
        invariant
            i <= n,
            off + 72 + 80 * n <= data.len(),
            objc_in_segment(data@, off as int, n as int, i as int) == objc_in_segment(
                data@,
                off as int,
                n as int,
                0,
            ),
        decreases n - i,
    {
        let s: MachSection = MachSection::read(data, off + 72 + 80 * i as usize);
        if check_objc_list(s.sectname.as_slice()) {
            return true;
        }
        i += 1;
    }
    false
}

/// True if an object holds Objective-C class or category lists, which -ObjC
/// forces to be linked from archives. `None` when it is malformed.
pub fn has_objc_sections(data: &[u8]) -> (r: Option<bool>)
    ensures
        r == if data.len() < 32 || bytes::u32_at(data@, 0) != MH_MAGIC_64 {
            Some(false)
        } else {
            objc_from(data@, 32, bytes::u32_at(data@, 16) as nat)
        },
{
    if data.len() < 32 || bytes::get32(data, 0) != MH_MAGIC_64 {
        return Some(false);
    }
    let ncmds: u32 = bytes::get32(data, 16);
    let ghost want = objc_from(data@, 32, ncmds as nat);
    let mut off: usize = 32;
    let mut left: u32 = ncmds;
    while left > 0
        invariant
            want == objc_from(data@, 32, ncmds as nat),
            want == objc_from(data@, off as int, left as nat),
            data.len() >= 32,
            bytes::u32_at(data@, 0) == MH_MAGIC_64,
            ncmds == bytes::u32_at(data@, 16),
        decreases left,
    {
        if off > data.len() || data.len() - off < 8 {
            return None;
        }
        if bytes::get32(data, off) == LC_SEGMENT_64 {
            if data.len() - off < 72 {
                return None;
            }
            let n: u32 = bytes::get32(data, off + 64);
            if 72 + 80 * n as u64 > (data.len() - off) as u64 {
                return None;
            }
            if find_objc_in_segment(data, off, n) {
                return Some(true);
            }
        }
        let size: u32 = bytes::get32(data, off + 4);
        left -= 1;
        assert(want == objc_from(data@, off + size, left as nat));
        if size as u64 > (data.len() - off) as u64 {
            if left == 0 {
                return Some(false);
            }
            return None;
        }
        off = off + size as usize;
    }
    Some(false)
}

/// True for an entry of a global symbol that the object defines, tentatively
/// or not.
pub open spec fn is_definition(e: NList) -> bool {
    !e.stab() && e.external() && (e.kind() != N_UNDF || e.common())
}

/// The names of the defined global symbols among the first `n` entries.
pub open spec fn definitions(nlists: Seq<NList>, strtab: Seq<u8>, n: int) -> Seq<Seq<u8>>
    decreases n,
{
    if n <= 0 {
        Seq::empty()
    } else if is_definition(nlists[n - 1]) {
        definitions(nlists, strtab, n - 1).push(
            super::strtab::name_at(strtab, nlists[n - 1].n_strx),
        )
    } else {
        definitions(nlists, strtab, n - 1)
    }
}

/// The names that `n` load commands from `off` on lead to, behind those in
/// `acc`.
pub open spec fn names_from(data: Seq<u8>, off: int, n: nat, acc: Seq<Seq<u8>>) -> Option<
    Seq<Seq<u8>>,
>
    decreases n,
{
    if n == 0 {
        Some(acc)
    } else if off + 8 > data.len() {
        None
    } else {
        let next = off + bytes::u32_at(data, off + 4);
        if bytes::u32_at(data, off) == LC_SYMTAB {
            if off + 24 > data.len() {
                None
            } else {
                let t = SymtabInfo {
                    symoff: bytes::u32_at(data, off + 8),
                    nsyms: bytes::u32_at(data, off + 12),
                    stroff: bytes::u32_at(data, off + 16),
                    strsize: bytes::u32_at(data, off + 20),
                };
                match super::stage::symtab_of(data, Some(t)) {
                    None => None,
                    Some((nlists, strtab)) => names_from(
                        data,
                        next,
                        (n - 1) as nat,
                        acc + definitions(nlists, strtab, nlists.len() as int),
                    ),
                }
            }
        } else {
            names_from(data, next, (n - 1) as nat, acc)
        }
    }
}

fn push_definitions(nlists: &Vec<NList>, strtab: &[u8], out: &mut Vec<Vec<u8>>)
    ensures
        bytes::views(final(out)@) == bytes::views(old(out)@) + definitions(
            nlists@,
            strtab@,
            nlists.len() as int,
        ),
{
    let ghost start = bytes::views(out@);
    assert(start + Seq::<Seq<u8>>::empty() =~= start);
    let mut n: usize = 0;
    while n < nlists.len()
        invariant
            n <= nlists.len(),
            bytes::views(out@) == start + definitions(nlists@, strtab@, n as int),
        decreases nlists.len() - n,
    {
        let e: NList = nlists[n];
        let ghost head = definitions(nlists@, strtab@, n as int);
        if !e.is_stab() && e.is_extern() && (e.n_type() != N_UNDF || e.is_common()) {
            let name: Vec<u8> = symbol_name(strtab, &e);
            let ghost nv = name@;
            text::push_name(out, name);
            assert((start + head).push(nv) =~= start + head.push(nv));
        }
        n += 1;
    }
}

fn read_definitions(data: &[u8], t: SymtabInfo, out: &mut Vec<Vec<u8>>) -> (r: bool)
    ensures
        match super::stage::symtab_of(data@, Some(t)) {
            None => !r,
            Some((nlists, strtab)) => r && bytes::views(final(out)@) == bytes::views(old(out)@)
                + definitions(nlists, strtab, nlists.len() as int),
        },
{
    let nlists: Vec<NList> = match read_nlists(data, t.symoff, t.nsyms) {
        Some(v) => v,
        None => {
            return false;
        },
    };
    let end: u64 = t.stroff as u64 + t.strsize as u64;
    if end > data.len() as u64 {
        return false;
    }
    let strings: Vec<u8> = bytes::copy_range(data, t.stroff as usize, end as usize);
    let strtab: &[u8] = validate_strtab(strings.as_slice());
    push_definitions(&nlists, strtab, out);
    true
}

/// The names of the global symbols that an object defines. `None` when it is
/// malformed.
pub fn defined_symbol_names(data: &[u8]) -> (r: Option<Vec<Vec<u8>>>)
    ensures
        ({
            let want = if data.len() < 32 {
                None
            } else {
                names_from(data@, 32, bytes::u32_at(data@, 16) as nat, Seq::empty())
            };
            match r {
                Some(v) => want == Some(bytes::views(v@)),
                None => want is None,
            }
        }),
{
    if data.len() < 32 {
        return None;
    }
    let ncmds: u32 = bytes::get32(data, 16);
    let ghost want = names_from(data@, 32, ncmds as nat, Seq::empty());
    let mut out: Vec<Vec<u8>> = Vec::new();
    assert(bytes::views(out@) =~= Seq::empty());
    let mut off: usize = 32;
    let mut left: u32 = ncmds;
    while left > 0
        invariant
            data.len() >= 32,
            ncmds == bytes::u32_at(data@, 16),
            want == names_from(data@, 32, ncmds as nat, Seq::empty()),
            want == names_from(data@, off as int, left as nat, bytes::views(out@)),
        decreases left,
    {
        if off > data.len() || data.len() - off < 8 {
            return None;
        }
        if bytes::get32(data, off) == LC_SYMTAB {
            if data.len() - off < 24 {
                return None;
            }
            let t = SymtabInfo {
                symoff: bytes::get32(data, off + 8),
                nsyms: bytes::get32(data, off + 12),
                stroff: bytes::get32(data, off + 16),
                strsize: bytes::get32(data, off + 20),
            };
            if !read_definitions(data, t, &mut out) {
                return None;
            }
        }
        let size: u32 = bytes::get32(data, off + 4);
        left -= 1;
        assert(want == names_from(data@, off + size, left as nat, bytes::views(out@)));
        if size as u64 > (data.len() - off) as u64 {
            if left == 0 {
                return Some(out);
            }
            return None;
        }
        off = off + size as usize;
    }
    Some(out)
}

} // verus!
