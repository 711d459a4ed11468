//! Static archives.
//!
//! An archive is a magic line, then 60-byte member headers, each in front of
//! its member. A member name of "#1/<len>" means that the real name is the
//! first <len> bytes of the member. The index member __.SYMDEF is skipped.
use crate::mapped_file::{join_brackets, MappedFile, MappedView};
use crate::util::{bytes, text};
use vstd::prelude::*;
use vstd::string::*;

verus! {

/// Why an archive cannot be read.
#[derive(Clone, Copy, Debug, PartialEq, Eq, Structural)]
pub enum ArchiveError {
    /// A member header holds no size.
    BadHeader,
    /// A long name has no length.
    BadName,
    /// A member reaches outside the file.
    Truncated,
}

/// A field of a member header: without trailing white space, and empty when
/// it is no text.
pub open spec fn field(data: Seq<u8>, from: int, to: int) -> Seq<u8> {
    let f = data.subrange(from, to);
    if text::is_text(f) {
        text::trim_end(f)
    } else {
        Seq::empty()
    }
}

fn read_field(data: &[u8], from: usize, to: usize) -> (r: Vec<u8>)
    requires
        from <= to <= data.len(),
    ensures
        r@ == field(data@, from as int, to as int),
{
    let f: Vec<u8> = bytes::copy_range(data, from, to);
    if text::check_text(f.as_slice()) {
        bytes::to_vec(text::without_trailing_space(f.as_slice()))
    } else {
        Vec::new()
    }
}

/// A member: its name, where its contents start, and their size.
#[verifier::ext_equal]
pub struct MemberView {
    pub name: Seq<u8>,
    pub body: int,
    pub size: int,
}

/// The member whose header stands at `off`, with the size that the header
/// gives. It need not lie in the file.
pub open spec fn member_at(data: Seq<u8>, off: int) -> Result<(MemberView, int), ArchiveError> {
    let name = field(data, off, off + 16);
    match text::parsed(field(data, off + 48, off + 58), 10, usize::MAX as int) {
        None => Err(ArchiveError::BadHeader),
        Some(size) => if bytes::has_prefix(name, "#1/".spec_bytes()) {
            match text::parsed(
                name.skip("#1/".spec_bytes().len() as int),
                10,
                usize::MAX as int,
            ) {
                None => Err(ArchiveError::BadName),
                Some(len) => if len > size || off + 60 + len > data.len() {
                    Err(ArchiveError::Truncated)
                } else {
                    Ok(
                        (
                            MemberView {
                                name: text::lossy(
                                    bytes::until_nul(
                                        data.subrange(off + 60, off + 60 + len),
                                    ),
                                ),
                                body: off + 60 + len,
                                size: size - len,
                            },
                            size,
                        ),
                    )
                },
            }
        } else {
            Ok((MemberView { name, body: off + 60, size }, size))
        },
    }
}

/// The offset behind a member of a size, aligned to an even one.
pub open spec fn next_offset(off: int, size: int) -> int {
    let end = off + 60 + size;
    end + end % 2
}

/// A member as a file.
pub open spec fn member_file(data: Seq<u8>, archive: Seq<u8>, m: MemberView) -> MappedView {
    MappedView {
        name: crate::mapped_file::bracketed(archive, m.name),
        data: data.subrange(m.body, m.body + m.size),
        parent: Some(archive),
    }
}

/// True for the name of the index of an archive.
pub open spec fn is_index(name: Seq<u8>) -> bool {
    bytes::has_prefix(name, "__.SYMDEF".spec_bytes())
}

/// The members from `off` on, behind those in `acc`. The index is passed
/// over, wherever it ends.
pub open spec fn members_from(data: Seq<u8>, archive: Seq<u8>, off: int, acc: Seq<MappedView>) -> Result<
    Seq<MappedView>,
    ArchiveError,
>
    decreases data.len() + 2 - off,
{
    if off < 0 || off + 60 > data.len() {
        Ok(acc)
    } else {
        match member_at(data, off) {
            Err(e) => Err(e),
            Ok((m, size)) => if size < 0 {
                Ok(acc)
            } else if off + 60 + size > data.len() {
                if is_index(m.name) {
                    Ok(acc)
                } else {
                    Err(ArchiveError::Truncated)
                }
            } else {
                members_from(
                    data,
                    archive,
                    next_offset(off, size),
                    if is_index(m.name) {
                        acc
                    } else {
                        acc.push(member_file(data, archive, m))
                    },
                )
            },
        }
    }
}

/// A member while it is read.
struct Member {
    name: Vec<u8>,
    body: usize,
    size: u64,
    whole: u64,
}

fn read_member(data: &[u8], off: usize) -> (r: Result<Member, ArchiveError>)
    requires
        off + 60 <= data.len(),
    ensures
        match r {
            Ok(m) => member_at(data@, off as int) == Ok::<(MemberView, int), ArchiveError>(
                (
                    MemberView { name: m.name@, body: m.body as int, size: m.size as int },
                    m.whole as int,
                ),
            ) && m.body + m.size == off + 60 + m.whole,
            Err(e) => member_at(data@, off as int) == Err::<(MemberView, int), ArchiveError>(e),
        },
{
    let name: Vec<u8> = read_field(data, off, off + 16);
    let digits: Vec<u8> = read_field(data, off + 48, off + 58);
    let size: u64 = match text::parse_number(digits.as_slice(), 10, usize::MAX as u64) {
        Some(n) => n,
        None => {
            return Err(ArchiveError::BadHeader);
        },
    };
    let room: u64 = (data.len() - off - 60) as u64;
    if bytes::starts_with(name.as_slice(), "#1/".as_bytes()) {
        let skip: usize = "#1/".as_bytes().len();
        let tail: Vec<u8> = bytes::copy_range(name.as_slice(), skip, name.len());
        assert(tail@ =~= name@.skip(skip as int));
        let len: u64 = match text::parse_number(tail.as_slice(), 10, usize::MAX as u64) {
            Some(n) => n,
            None => {
                return Err(ArchiveError::BadName);
            },
        };
        if len > size || len > room {
            return Err(ArchiveError::Truncated);
        }
        let raw: Vec<u8> = bytes::copy_range(data, off + 60, off + 60 + len as usize);
        let end: usize = bytes::find_byte(raw.as_slice(), 0, 0);
        let own: &[u8] = vstd::slice::slice_subrange(raw.as_slice(), 0, end);
        assert(own@ =~= bytes::until_nul(raw@));
        return Ok(
            Member {
                name: text::from_lossy(own),
                body: off + 60 + len as usize,
                size: size - len,
                whole: size,
            },
        );
    }
    Ok(Member { name, body: off + 60, size, whole: size })
}

/// What a list of files holds.
pub open spec fn file_views(v: Seq<MappedFile>) -> Seq<MappedView> {
    v.map_values(|f: MappedFile| f@)
}

/// Splits an archive into its members.
pub fn read_archive_members(mf: &MappedFile) -> (r: Result<Vec<MappedFile>, ArchiveError>)
    ensures
        match r {
            Ok(v) => members_from(mf.data@, mf.name@, 8, Seq::empty()) == Ok::<
                Seq<MappedView>,
                ArchiveError,
            >(file_views(v@)),
            Err(e) => members_from(mf.data@, mf.name@, 8, Seq::empty()) == Err::<
                Seq<MappedView>,
                ArchiveError,
            >(e),
        },
{
    let data: &[u8] = mf.data.as_slice();
    let ghost want = members_from(data@, mf.name@, 8, Seq::empty());
    let mut out: Vec<MappedFile> = Vec::new();
    assert(file_views(out@) =~= Seq::empty());
    let mut off: usize = 8;
    while off <= data.len() && data.len() - off >= 60
        invariant
            data@ == mf.data@,
            want == members_from(mf.data@, mf.name@, 8, Seq::empty()),
            want == members_from(data@, mf.name@, off as int, file_views(out@)),
        decreases data.len() + 1 - off,
    {
        let m: Member = match read_member(data, off) {
            Ok(m) => m,
            Err(e) => {
                return Err(e);
            },
        };
        let ghost acc = file_views(out@);
        let is_index: bool = bytes::starts_with(m.name.as_slice(), "__.SYMDEF".as_bytes());
        if m.whole > (data.len() - off - 60) as u64 {
            if is_index {
                return Ok(out);
            }
            return Err(ArchiveError::Truncated);
        }
        if !is_index {
            let f: MappedFile = mf.slice(
                join_brackets(mf.name.as_slice(), m.name.as_slice()),
                m.body,
                m.body + m.size as usize,
            );
            let ghost fv = f@;
            out.push(f);
            assert(file_views(out@) =~= acc.push(fv));
        }
        let end: usize = off + 60 + m.whole as usize;
        if end % 2 == 1 {
            if end == data.len() {
                assert(want == members_from(
                    data@,
                    mf.name@,
                    next_offset(off as int, m.whole as int),
                    file_views(out@),
                ));
                return Ok(out);
            }
            off = end + 1;
        } else {
            off = end;
        }
    }
    Ok(out)
}

} // verus!
