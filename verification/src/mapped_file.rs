//! The contents of input files.
use crate::util::bytes;
use vstd::prelude::*;

verus! {

/// An input file's contents.
#[derive(Debug)]
pub struct MappedFile {
    pub name: Vec<u8>,
    pub data: Vec<u8>,
    /// For an archive member or a slice, the name of the containing file.
    pub parent: Option<Vec<u8>>,
}

/// An input file's contents, as mathematical values.
#[verifier::ext_equal]
pub struct MappedView {
    pub name: Seq<u8>,
    pub data: Seq<u8>,
    pub parent: Option<Seq<u8>>,
}

impl View for MappedFile {
    type V = MappedView;

    open spec fn view(&self) -> MappedView {
        MappedView {
            name: self.name@,
            data: self.data@,
            parent: match self.parent {
                Some(p) => Some(p@),
                None => None,
            },
        }
    }
}

/// A file that does not exist.
#[derive(Debug)]
pub struct NoSuchFile {
    pub path: Vec<u8>,
}

impl MappedFile {
    /// The file that was found at a path; it is an error if none was.
    pub fn must_open(found: Option<MappedFile>, path: &[u8]) -> (r: Result<MappedFile, NoSuchFile>)
        ensures
            match r {
                Ok(f) => found == Some(f),
                Err(e) => found is None && e.path@ == path@,
            },
    {
        match found {
            Some(f) => Ok(f),
            None => Err(NoSuchFile { path: bytes::to_vec(path) }),
        }
    }

    /// A part of this file, under a name of its own.
    pub fn slice(&self, name: Vec<u8>, from: usize, to: usize) -> (r: MappedFile)
        requires
            from <= to <= self.data.len(),
        ensures
            r@ == (MappedView {
                name: name@,
                data: self.data@.subrange(from as int, to as int),
                parent: Some(self.name@),
            }),
    {
        MappedFile {
            name,
            data: bytes::copy_range(self.data.as_slice(), from, to),
            parent: Some(bytes::to_vec(self.name.as_slice())),
        }
    }
}

/// A name with another one in brackets.
pub open spec fn bracketed(outer: Seq<u8>, inner: Seq<u8>) -> Seq<u8> {
    (outer.push(40) + inner).push(41)
}

/// A name with another one in brackets.
pub fn join_brackets(outer: &[u8], inner: &[u8]) -> (r: Vec<u8>)
    ensures
        r@ == bracketed(outer@, inner@),
{
    let mut r: Vec<u8> = bytes::to_vec(outer);
    r.push(40);
    bytes::append(&mut r, inner);
    r.push(41);
    r
}

} // verus!
